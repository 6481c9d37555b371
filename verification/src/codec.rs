//! A verified binary codec for the persisted snapshot: the vault's user
//! records and the store's file index, length-prefixed with 64-bit
//! little-endian counts. Decoding is proved to invert encoding.

use vstd::prelude::*;
use vstd::bytes::{spec_u64_to_le_bytes, spec_u64_from_le_bytes, u64_to_le_bytes, u64_from_le_bytes,
    lemma_auto_spec_u64_to_from_le_bytes};
use vstd::utf8::{encode_utf8, decode_utf8, valid_utf8};
use vstd::slice::{slice_subrange, slice_to_vec};
use crate::errors::DatabaseError;
use crate::user::{User, UserView};
use crate::strbytes::{utf8_to_string, lemma_utf8_round_trip};

verus! {

/// The abstract value of a persisted snapshot: user records and the
/// file index entries, in order.
pub ghost struct SnapshotView {
    pub users: Seq<UserView>,
    pub links: Seq<(Seq<char>, Seq<Seq<char>>)>,
}

/// A snapshot of the state the envelope persists: the vault's records
/// and the file index.
#[derive(Debug)]
pub struct Snapshot {
    pub users: Vec<User>,
    pub file_links: Vec<(String, Vec<String>)>,
}

impl View for Snapshot {
    type V = SnapshotView;

    open spec fn view(&self) -> SnapshotView {
        SnapshotView {
            users: self.users@.map_values(|u: User| u@),
            links: self.file_links@.map_values(
                |l: (String, Vec<String>)| (l.0@, l.1@.map_values(|s: String| s@)),
            ),
        }
    }
}

/// Bytes prefixed by their count.
pub open spec fn enc_bytes(b: Seq<u8>) -> Seq<u8> {
    spec_u64_to_le_bytes(b.len() as u64) + b
}

/// A string as its length-prefixed UTF-8 encoding.
pub open spec fn enc_str(s: Seq<char>) -> Seq<u8> {
    enc_bytes(encode_utf8(s))
}

/// One user record: its text fields, flag, key material and hash.
pub open spec fn enc_user(u: UserView) -> Seq<u8> {
    enc_str(u.username) + enc_str(u.email) + enc_str(u.beeid) + seq![
        if u.authenticate {
            1u8
        } else {
            0u8
        },
    ] + u.key + enc_str(u.password_hash)
}

pub open spec fn enc_user_list(us: Seq<UserView>) -> Seq<u8>
    decreases us.len(),
{
    if us.len() == 0 {
        Seq::empty()
    } else {
        enc_user(us[0]) + enc_user_list(us.drop_first())
    }
}

pub open spec fn enc_users(us: Seq<UserView>) -> Seq<u8> {
    spec_u64_to_le_bytes(us.len() as u64) + enc_user_list(us)
}

pub open spec fn enc_id_list(ids: Seq<Seq<char>>) -> Seq<u8>
    decreases ids.len(),
{
    if ids.len() == 0 {
        Seq::empty()
    } else {
        enc_str(ids[0]) + enc_id_list(ids.drop_first())
    }
}

pub open spec fn enc_link(l: (Seq<char>, Seq<Seq<char>>)) -> Seq<u8> {
    enc_str(l.0) + spec_u64_to_le_bytes(l.1.len() as u64) + enc_id_list(l.1)
}

pub open spec fn enc_link_list(ls: Seq<(Seq<char>, Seq<Seq<char>>)>) -> Seq<u8>
    decreases ls.len(),
{
    if ls.len() == 0 {
        Seq::empty()
    } else {
        enc_link(ls[0]) + enc_link_list(ls.drop_first())
    }
}

/// The whole snapshot: the user records, then the index entries.
pub open spec fn enc_snapshot(sv: SnapshotView) -> Seq<u8> {
    enc_users(sv.users) + spec_u64_to_le_bytes(sv.links.len() as u64) + enc_link_list(sv.links)
}

/// Length bounds under which the 64-bit count prefixes are faithful.
pub open spec fn str_enc_wf(s: Seq<char>) -> bool {
    encode_utf8(s).len() <= u64::MAX
}

pub open spec fn user_enc_wf(u: UserView) -> bool {
    &&& str_enc_wf(u.username)
    &&& str_enc_wf(u.email)
    &&& str_enc_wf(u.beeid)
    &&& str_enc_wf(u.password_hash)
    &&& u.key.len() == 32
}

pub open spec fn link_enc_wf(l: (Seq<char>, Seq<Seq<char>>)) -> bool {
    &&& str_enc_wf(l.0)
    &&& l.1.len() <= u64::MAX
    &&& forall|j: int| 0 <= j < l.1.len() ==> str_enc_wf(#[trigger] l.1[j])
}

pub open spec fn snapshot_enc_wf(sv: SnapshotView) -> bool {
    &&& sv.users.len() <= u64::MAX
    &&& forall|i: int| 0 <= i < sv.users.len() ==> user_enc_wf(#[trigger] sv.users[i])
    &&& sv.links.len() <= u64::MAX
    &&& forall|i: int| 0 <= i < sv.links.len() ==> link_enc_wf(#[trigger] sv.links[i])
}

/// Reads a 64-bit little-endian count.
pub open spec fn sd_u64(b: Seq<u8>) -> Option<(u64, Seq<u8>)> {
    if b.len() >= 8 {
        Some((spec_u64_from_le_bytes(b.take(8)), b.skip(8)))
    } else {
        None
    }
}

/// Reads a count-prefixed byte block.
pub open spec fn sd_bytes(b: Seq<u8>) -> Option<(Seq<u8>, Seq<u8>)> {
    match sd_u64(b) {
        Some((n, rest)) => if rest.len() >= n {
            Some((rest.take(n as int), rest.skip(n as int)))
        } else {
            None
        },
        None => None,
    }
}

/// Reads a count-prefixed UTF-8 string.
pub open spec fn sd_str(b: Seq<u8>) -> Option<(Seq<char>, Seq<u8>)> {
    match sd_bytes(b) {
        Some((bs, rest)) => if valid_utf8(bs) {
            Some((decode_utf8(bs), rest))
        } else {
            None
        },
        None => None,
    }
}

/// Reads a single byte.
pub open spec fn sd_byte(b: Seq<u8>) -> Option<(u8, Seq<u8>)> {
    if b.len() >= 1 {
        Some((b[0], b.skip(1)))
    } else {
        None
    }
}

/// Reads exactly 32 bytes of key material.
pub open spec fn sd_key(b: Seq<u8>) -> Option<(Seq<u8>, Seq<u8>)> {
    if b.len() >= 32 {
        Some((b.take(32), b.skip(32)))
    } else {
        None
    }
}

/// Reads one user record.
pub open spec fn sd_user(b: Seq<u8>) -> Option<(UserView, Seq<u8>)> {
    match sd_str(b) {
        Some((username, b1)) => match sd_str(b1) {
            Some((email, b2)) => match sd_str(b2) {
                Some((beeid, b3)) => match sd_byte(b3) {
                    Some((flag, b4)) => match sd_key(b4) {
                        Some((key, b5)) => match sd_str(b5) {
                            Some((password_hash, b6)) => Some(
                                (
                                    UserView {
                                        username,
                                        email,
                                        beeid,
                                        authenticate: flag != 0,
                                        key,
                                        password_hash,
                                    },
                                    b6,
                                ),
                            ),
                            None => None,
                        },
                        None => None,
                    },
                    None => None,
                },
                None => None,
            },
            None => None,
        },
        None => None,
    }
}

pub open spec fn sd_user_list(b: Seq<u8>, n: u64) -> Option<(Seq<UserView>, Seq<u8>)>
    decreases n,
{
    if n == 0 {
        Some((Seq::empty(), b))
    } else {
        match sd_user(b) {
            Some((u, rest)) => match sd_user_list(rest, (n - 1) as u64) {
                Some((us, tail)) => Some((seq![u] + us, tail)),
                None => None,
            },
            None => None,
        }
    }
}

pub open spec fn sd_users(b: Seq<u8>) -> Option<(Seq<UserView>, Seq<u8>)> {
    match sd_u64(b) {
        Some((n, rest)) => sd_user_list(rest, n),
        None => None,
    }
}

pub open spec fn sd_id_list(b: Seq<u8>, n: u64) -> Option<(Seq<Seq<char>>, Seq<u8>)>
    decreases n,
{
    if n == 0 {
        Some((Seq::empty(), b))
    } else {
        match sd_str(b) {
            Some((s, rest)) => match sd_id_list(rest, (n - 1) as u64) {
                Some((ids, tail)) => Some((seq![s] + ids, tail)),
                None => None,
            },
            None => None,
        }
    }
}

/// Reads one index entry: a filename and its cube identifiers.
pub open spec fn sd_link(b: Seq<u8>) -> Option<((Seq<char>, Seq<Seq<char>>), Seq<u8>)> {
    match sd_str(b) {
        Some((name, b1)) => match sd_u64(b1) {
            Some((n, b2)) => match sd_id_list(b2, n) {
                Some((ids, tail)) => Some(((name, ids), tail)),
                None => None,
            },
            None => None,
        },
        None => None,
    }
}

pub open spec fn sd_link_list(b: Seq<u8>, n: u64) -> Option<
    (Seq<(Seq<char>, Seq<Seq<char>>)>, Seq<u8>),
>
    decreases n,
{
    if n == 0 {
        Some((Seq::empty(), b))
    } else {
        match sd_link(b) {
            Some((l, rest)) => match sd_link_list(rest, (n - 1) as u64) {
                Some((ls, tail)) => Some((seq![l] + ls, tail)),
                None => None,
            },
            None => None,
        }
    }
}

/// Decodes a whole snapshot; the input must be consumed exactly.
pub open spec fn sd_snapshot(b: Seq<u8>) -> Option<SnapshotView> {
    match sd_users(b) {
        Some((users, b1)) => match sd_u64(b1) {
            Some((n, b2)) => match sd_link_list(b2, n) {
                Some((links, tail)) => if tail.len() == 0 {
                    Some(SnapshotView { users, links })
                } else {
                    None
                },
                None => None,
            },
            None => None,
        },
        None => None,
    }
}

proof fn lemma_sd_u64_enc(x: u64, rest: Seq<u8>)
    ensures
        sd_u64(spec_u64_to_le_bytes(x) + rest) == Some((x, rest)),
{
    lemma_auto_spec_u64_to_from_le_bytes();
    let b = spec_u64_to_le_bytes(x) + rest;
    assert(b.take(8) =~= spec_u64_to_le_bytes(x));
    assert(b.skip(8) =~= rest);
}

proof fn lemma_sd_bytes_enc(bs: Seq<u8>, rest: Seq<u8>)
    requires
        bs.len() <= u64::MAX,
    ensures
        sd_bytes(enc_bytes(bs) + rest) == Some((bs, rest)),
{
    let b = enc_bytes(bs) + rest;
    assert(b =~= spec_u64_to_le_bytes(bs.len() as u64) + (bs + rest));
    lemma_sd_u64_enc(bs.len() as u64, bs + rest);
    assert((bs + rest).take(bs.len() as int) =~= bs);
    assert((bs + rest).skip(bs.len() as int) =~= rest);
}

proof fn lemma_sd_str_enc(s: Seq<char>, rest: Seq<u8>)
    requires
        str_enc_wf(s),
    ensures
        sd_str(enc_str(s) + rest) == Some((s, rest)),
{
    lemma_sd_bytes_enc(encode_utf8(s), rest);
    lemma_utf8_round_trip(s);
}

#[verifier::rlimit(100)]
proof fn lemma_sd_user_enc(u: UserView, rest: Seq<u8>)
    requires
        user_enc_wf(u),
    ensures
        sd_user(enc_user(u) + rest) == Some((u, rest)),
{
    let flag_byte = seq![
        if u.authenticate {
            1u8
        } else {
            0u8
        },
    ];
    let tail1 = enc_str(u.email) + enc_str(u.beeid) + flag_byte + u.key + enc_str(u.password_hash)
        + rest;
    assert(enc_user(u) + rest =~= enc_str(u.username) + tail1);
    lemma_sd_str_enc(u.username, tail1);
    let tail2 = enc_str(u.beeid) + flag_byte + u.key + enc_str(u.password_hash) + rest;
    assert(tail1 =~= enc_str(u.email) + tail2);
    lemma_sd_str_enc(u.email, tail2);
    let tail3 = flag_byte + u.key + enc_str(u.password_hash) + rest;
    assert(tail2 =~= enc_str(u.beeid) + tail3);
    lemma_sd_str_enc(u.beeid, tail3);
    let tail4 = u.key + enc_str(u.password_hash) + rest;
    assert(tail3[0] == flag_byte[0]);
    assert(tail3.skip(1) =~= tail4);
    let tail5 = enc_str(u.password_hash) + rest;
    assert(tail4.take(32) =~= u.key);
    assert(tail4.skip(32) =~= tail5);
    lemma_sd_str_enc(u.password_hash, rest);
    assert(sd_user(enc_user(u) + rest) == Some((u, rest)));
}

#[verifier::rlimit(100)]
proof fn lemma_sd_user_list_enc(us: Seq<UserView>, rest: Seq<u8>, n: u64)
    requires
        us.len() == n,
        forall|i: int| 0 <= i < us.len() ==> user_enc_wf(#[trigger] us[i]),
    ensures
        sd_user_list(enc_user_list(us) + rest, n) == Some((us, rest)),
    decreases n,
{
    if n == 0 {
        assert(enc_user_list(us) + rest =~= rest);
        assert(sd_user_list(rest, 0) == Some((Seq::<UserView>::empty(), rest)));
        assert(us =~= Seq::<UserView>::empty());
    } else {
        let tail = enc_user_list(us.drop_first()) + rest;
        assert(enc_user_list(us) + rest =~= enc_user(us[0]) + tail);
        lemma_sd_user_enc(us[0], tail);
        lemma_sd_user_list_enc(us.drop_first(), rest, (n - 1) as u64);
        assert(seq![us[0]] + us.drop_first() =~= us);
    }
}

proof fn lemma_sd_id_list_enc(ids: Seq<Seq<char>>, rest: Seq<u8>, n: u64)
    requires
        ids.len() == n,
        forall|i: int| 0 <= i < ids.len() ==> str_enc_wf(#[trigger] ids[i]),
    ensures
        sd_id_list(enc_id_list(ids) + rest, n) == Some((ids, rest)),
    decreases n,
{
    if n == 0 {
        assert(enc_id_list(ids) + rest =~= rest);
        assert(ids =~= Seq::<Seq<char>>::empty());
    } else {
        let tail = enc_id_list(ids.drop_first()) + rest;
        assert(enc_id_list(ids) + rest =~= enc_str(ids[0]) + tail);
        lemma_sd_str_enc(ids[0], tail);
        lemma_sd_id_list_enc(ids.drop_first(), rest, (n - 1) as u64);
        assert(seq![ids[0]] + ids.drop_first() =~= ids);
    }
}

proof fn lemma_sd_link_enc(l: (Seq<char>, Seq<Seq<char>>), rest: Seq<u8>)
    requires
        link_enc_wf(l),
    ensures
        sd_link(enc_link(l) + rest) == Some((l, rest)),
{
    let tail1 = spec_u64_to_le_bytes(l.1.len() as u64) + enc_id_list(l.1) + rest;
    assert(enc_link(l) + rest =~= enc_str(l.0) + tail1);
    lemma_sd_str_enc(l.0, tail1);
    let tail2 = enc_id_list(l.1) + rest;
    assert(tail1 =~= spec_u64_to_le_bytes(l.1.len() as u64) + tail2);
    lemma_sd_u64_enc(l.1.len() as u64, tail2);
    lemma_sd_id_list_enc(l.1, rest, l.1.len() as u64);
}

proof fn lemma_sd_link_list_enc(ls: Seq<(Seq<char>, Seq<Seq<char>>)>, rest: Seq<u8>, n: u64)
    requires
        ls.len() == n,
        forall|i: int| 0 <= i < ls.len() ==> link_enc_wf(#[trigger] ls[i]),
    ensures
        sd_link_list(enc_link_list(ls) + rest, n) == Some((ls, rest)),
    decreases n,
{
    if n == 0 {
        assert(enc_link_list(ls) + rest =~= rest);
        assert(ls =~= Seq::<(Seq<char>, Seq<Seq<char>>)>::empty());
    } else {
        let tail = enc_link_list(ls.drop_first()) + rest;
        assert(enc_link_list(ls) + rest =~= enc_link(ls[0]) + tail);
        lemma_sd_link_enc(ls[0], tail);
        lemma_sd_link_list_enc(ls.drop_first(), rest, (n - 1) as u64);
        assert(seq![ls[0]] + ls.drop_first() =~= ls);
    }
}

fn push_u64(out: &mut Vec<u8>, x: u64)
    ensures
        final(out)@ == old(out)@ + spec_u64_to_le_bytes(x),
{
    let b = u64_to_le_bytes(x);
    out.extend_from_slice(b.as_slice());
    proof {
        assert(out@ =~= old(out)@ + spec_u64_to_le_bytes(x));
    }
}

fn push_bytes(out: &mut Vec<u8>, b: &[u8])
    ensures
        final(out)@ == old(out)@ + enc_bytes(b@),
{
    proof {
        lemma_auto_spec_u64_to_from_le_bytes();
    }
    push_u64(out, b.len() as u64);
    out.extend_from_slice(b);
    proof {
        assert(out@ =~= old(out)@ + enc_bytes(b@));
    }
}

fn push_str(out: &mut Vec<u8>, s: &str)
    ensures
        final(out)@ == old(out)@ + enc_str(s@),
        str_enc_wf(s@),
{
    let b = s.as_bytes();
    let n = b.len();
    proof {
        assert(encode_utf8(s@).len() == n);
        assert(n <= u64::MAX);
    }
    push_bytes(out, b);
}

fn push_user(out: &mut Vec<u8>, u: &User)
    ensures
        final(out)@ == old(out)@ + enc_user(u@),
        user_enc_wf(u@),
{
    push_str(out, u.username.as_str());
    push_str(out, u.email.as_str());
    push_str(out, u.beeid.as_str());
    let flag: u8 = if u.authenticate {
        1
    } else {
        0
    };
    out.push(flag);
    out.extend_from_slice(u.key.as_slice());
    push_str(out, u.password_hash.as_str());
    proof {
        assert(out@ =~= old(out)@ + enc_user(u@));
    }
}

/// Encodes a snapshot as bytes; the encoding is always well formed, so
/// `lemma_snapshot_roundtrip` applies to it.
#[verifier::rlimit(100)]
pub fn encode_snapshot(s: &Snapshot) -> (r: Vec<u8>)
    ensures
        r@ == enc_snapshot(s@),
        snapshot_enc_wf(s@),
{
    let mut out: Vec<u8> = Vec::new();
    let nu = s.users.len();
    push_u64(&mut out, nu as u64);
    let ghost uviews = s.users@.map_values(|u: User| u@);
    let mut i: usize = 0;
    proof {
        assert(enc_user_list(uviews.take(0)) =~= Seq::<u8>::empty());
        assert(out@ =~= spec_u64_to_le_bytes(nu as u64) + enc_user_list(uviews.take(0)));
    }
    while i < nu
        invariant
            i <= nu,
            nu == s.users@.len(),
            uviews == s.users@.map_values(|u: User| u@),
            out@ == spec_u64_to_le_bytes(nu as u64) + enc_user_list(uviews.take(i as int)),
            forall|k: int| 0 <= k < i ==> user_enc_wf(#[trigger] uviews[k]),
        decreases nu - i,
    {
        push_user(&mut out, &s.users[i]);
        i += 1;
        proof {
            assert(uviews[i - 1] == s.users@[i - 1]@);
            lemma_enc_user_list_snoc(uviews.take(i - 1), uviews[i - 1]);
            assert(uviews.take(i as int) =~= uviews.take(i - 1).push(uviews[i - 1]));
            assert(out@ =~= spec_u64_to_le_bytes(nu as u64) + enc_user_list(uviews.take(i as int)));
        }
    }
    proof {
        assert(uviews.take(nu as int) =~= uviews);
        assert(out@ =~= enc_users(uviews));
    }
    let nl = s.file_links.len();
    push_u64(&mut out, nl as u64);
    let ghost lviews = s.file_links@.map_values(
        |l: (String, Vec<String>)| (l.0@, l.1@.map_values(|t: String| t@)),
    );
    let ghost base = out@;
    let mut j: usize = 0;
    proof {
        assert(enc_link_list(lviews.take(0)) =~= Seq::<u8>::empty());
        assert(out@ =~= base + enc_link_list(lviews.take(0)));
    }
    while j < nl
        invariant
            j <= nl,
            nl == s.file_links@.len(),
            lviews == s.file_links@.map_values(
                |l: (String, Vec<String>)| (l.0@, l.1@.map_values(|t: String| t@)),
            ),
            base == enc_users(s@.users) + spec_u64_to_le_bytes(nl as u64),
            out@ == base + enc_link_list(lviews.take(j as int)),
            forall|k: int| 0 <= k < j ==> link_enc_wf(#[trigger] lviews[k]),
        decreases nl - j,
    {
        let ghost link_view = lviews[j as int];
        push_str(&mut out, s.file_links[j].0.as_str());
        let ni = s.file_links[j].1.len();
        push_u64(&mut out, ni as u64);
        let ghost ids_view = link_view.1;
        let ghost mid = out@;
        let mut t: usize = 0;
        proof {
            assert(ids_view == s.file_links@[j as int].1@.map_values(|x: String| x@));
            assert(enc_id_list(ids_view.take(0)) =~= Seq::<u8>::empty());
            assert(out@ =~= mid + enc_id_list(ids_view.take(0)));
        }
        while t < ni
            invariant
                t <= ni,
                j < nl,
                nl == s.file_links@.len(),
                ni == s.file_links@[j as int].1@.len(),
                ids_view == s.file_links@[j as int].1@.map_values(|x: String| x@),
                out@ == mid + enc_id_list(ids_view.take(t as int)),
                forall|k: int| 0 <= k < t ==> str_enc_wf(#[trigger] ids_view[k]),
            decreases ni - t,
        {
            push_str(&mut out, s.file_links[j].1[t].as_str());
            t += 1;
            proof {
                assert(ids_view[t - 1] == s.file_links@[j as int].1@[t - 1]@);
                lemma_enc_id_list_snoc(ids_view.take(t - 1), ids_view[t - 1]);
                assert(ids_view.take(t as int) =~= ids_view.take(t - 1).push(ids_view[t - 1]));
                assert(out@ =~= mid + enc_id_list(ids_view.take(t as int)));
            }
        }
        j += 1;
        proof {
            assert(ids_view.take(ni as int) =~= ids_view);
            assert(link_view.0 == s.file_links@[j - 1].0@);
            assert(out@ =~= base + enc_link_list(lviews.take(j - 1)) + enc_link(link_view));
            lemma_enc_link_list_snoc(lviews.take(j - 1), link_view);
            assert(lviews.take(j as int) =~= lviews.take(j - 1).push(link_view));
            assert(out@ =~= base + enc_link_list(lviews.take(j as int)));
        }
    }
    proof {
        assert(lviews.take(nl as int) =~= lviews);
        assert(out@ =~= enc_snapshot(s@));
    }
    out
}

proof fn lemma_enc_user_list_snoc(us: Seq<UserView>, u: UserView)
    ensures
        enc_user_list(us.push(u)) == enc_user_list(us) + enc_user(u),
    decreases us.len(),
{
    if us.len() == 0 {
        assert(us.push(u)[0] == u);
        assert(us.push(u).drop_first() =~= Seq::<UserView>::empty());
        assert(enc_user_list(Seq::<UserView>::empty()) == Seq::<u8>::empty());
        assert(enc_user_list(us.push(u)) == enc_user(us.push(u)[0]) + enc_user_list(
            us.push(u).drop_first(),
        ));
        assert(enc_user_list(us.push(u)) =~= enc_user(u));
        assert(enc_user_list(us) + enc_user(u) =~= enc_user(u));
    } else {
        assert(us.push(u)[0] == us[0]);
        assert(us.push(u).drop_first() =~= us.drop_first().push(u));
        lemma_enc_user_list_snoc(us.drop_first(), u);
        assert(enc_user_list(us.push(u)) =~= enc_user_list(us) + enc_user(u));
    }
}

proof fn lemma_enc_id_list_snoc(ids: Seq<Seq<char>>, s: Seq<char>)
    ensures
        enc_id_list(ids.push(s)) == enc_id_list(ids) + enc_str(s),
    decreases ids.len(),
{
    if ids.len() == 0 {
        assert(ids.push(s)[0] == s);
        assert(ids.push(s).drop_first() =~= Seq::<Seq<char>>::empty());
        assert(enc_id_list(Seq::<Seq<char>>::empty()) == Seq::<u8>::empty());
        assert(enc_id_list(ids.push(s)) == enc_str(ids.push(s)[0]) + enc_id_list(
            ids.push(s).drop_first(),
        ));
        assert(enc_id_list(ids.push(s)) =~= enc_str(s));
        assert(enc_id_list(ids) + enc_str(s) =~= enc_str(s));
    } else {
        assert(ids.push(s)[0] == ids[0]);
        assert(ids.push(s).drop_first() =~= ids.drop_first().push(s));
        lemma_enc_id_list_snoc(ids.drop_first(), s);
        assert(enc_id_list(ids.push(s)) =~= enc_id_list(ids) + enc_str(s));
    }
}

proof fn lemma_enc_link_list_snoc(ls: Seq<(Seq<char>, Seq<Seq<char>>)>, l: (Seq<char>, Seq<Seq<char>>))
    ensures
        enc_link_list(ls.push(l)) == enc_link_list(ls) + enc_link(l),
    decreases ls.len(),
{
    if ls.len() == 0 {
        assert(ls.push(l)[0] == l);
        assert(ls.push(l).drop_first() =~= Seq::<(Seq<char>, Seq<Seq<char>>)>::empty());
        assert(enc_link_list(Seq::<(Seq<char>, Seq<Seq<char>>)>::empty()) == Seq::<u8>::empty());
        assert(enc_link_list(ls.push(l)) == enc_link(ls.push(l)[0]) + enc_link_list(
            ls.push(l).drop_first(),
        ));
        assert(enc_link_list(ls.push(l)) =~= enc_link(l));
        assert(enc_link_list(ls) + enc_link(l) =~= enc_link(l));
    } else {
        assert(ls.push(l)[0] == ls[0]);
        assert(ls.push(l).drop_first() =~= ls.drop_first().push(l));
        lemma_enc_link_list_snoc(ls.drop_first(), l);
        assert(enc_link_list(ls.push(l)) =~= enc_link_list(ls) + enc_link(l));
    }
}

fn read_u64(bytes: &[u8], pos: usize) -> (r: Option<(u64, usize)>)
    requires
        pos <= bytes@.len(),
    ensures
        match sd_u64(bytes@.skip(pos as int)) {
            Some(xr) => r matches Some(xp) && xp.0 == xr.0 && pos <= xp.1 <= bytes@.len()
                && bytes@.skip(xp.1 as int) == xr.1,
            None => r is None,
        },
{
    if bytes.len() - pos >= 8 {
        let sl = slice_subrange(bytes, pos, pos + 8);
        let x = u64_from_le_bytes(sl);
        proof {
            assert(bytes@.skip(pos as int).take(8) =~= bytes@.subrange(pos as int, pos + 8));
            assert(bytes@.skip(pos + 8) =~= bytes@.skip(pos as int).skip(8));
        }
        Some((x, pos + 8))
    } else {
        None
    }
}

fn read_bytes(bytes: &[u8], pos: usize) -> (r: Option<(Vec<u8>, usize)>)
    requires
        pos <= bytes@.len(),
    ensures
        match sd_bytes(bytes@.skip(pos as int)) {
            Some(xr) => r matches Some(xp) && xp.0@ == xr.0 && pos <= xp.1 <= bytes@.len()
                && bytes@.skip(xp.1 as int) == xr.1,
            None => r is None,
        },
{
    match read_u64(bytes, pos) {
        Some((n, p1)) => {
            if n <= (bytes.len() - p1) as u64 {
                let n_us = n as usize;
                let sl = slice_subrange(bytes, p1, p1 + n_us);
                let v = slice_to_vec(sl);
                proof {
                    assert(bytes@.skip(p1 as int).take(n as int) =~= bytes@.subrange(
                        p1 as int,
                        p1 + n_us,
                    ));
                    assert(bytes@.skip(p1 + n_us) =~= bytes@.skip(p1 as int).skip(n as int));
                }
                Some((v, p1 + n_us))
            } else {
                None
            }
        },
        None => None,
    }
}

fn read_str(bytes: &[u8], pos: usize) -> (r: Option<(String, usize)>)
    requires
        pos <= bytes@.len(),
    ensures
        match sd_str(bytes@.skip(pos as int)) {
            Some(xr) => r matches Some(xp) && xp.0@ == xr.0 && pos <= xp.1 <= bytes@.len()
                && bytes@.skip(xp.1 as int) == xr.1,
            None => r is None,
        },
{
    match read_bytes(bytes, pos) {
        Some((v, p1)) => match utf8_to_string(v) {
            Some(s) => Some((s, p1)),
            None => None,
        },
        None => None,
    }
}

fn read_byte(bytes: &[u8], pos: usize) -> (r: Option<(u8, usize)>)
    requires
        pos <= bytes@.len(),
    ensures
        match sd_byte(bytes@.skip(pos as int)) {
            Some(xr) => r matches Some(xp) && xp.0 == xr.0 && pos <= xp.1 <= bytes@.len()
                && bytes@.skip(xp.1 as int) == xr.1,
            None => r is None,
        },
{
    if bytes.len() - pos >= 1 {
        let b = bytes[pos];
        proof {
            assert(bytes@.skip(pos as int)[0] == bytes@[pos as int]);
            assert(bytes@.skip(pos + 1) =~= bytes@.skip(pos as int).skip(1));
        }
        Some((b, pos + 1))
    } else {
        None
    }
}

fn read_key(bytes: &[u8], pos: usize) -> (r: Option<([u8; 32], usize)>)
    requires
        pos <= bytes@.len(),
    ensures
        match sd_key(bytes@.skip(pos as int)) {
            Some(xr) => r matches Some(xp) && xp.0@ == xr.0 && pos <= xp.1 <= bytes@.len()
                && bytes@.skip(xp.1 as int) == xr.1,
            None => r is None,
        },
{
    if bytes.len() - pos >= 32 {
        let mut key: [u8; 32] = [0u8; 32];
        let n_total = bytes.len();
        let mut i: usize = 0;
        while i < 32
            invariant
                i <= 32,
                pos + 32 <= bytes@.len(),
                bytes@.len() == n_total,
                forall|k: int| 0 <= k < i ==> key@[k] == bytes@[pos + k],
            decreases 32 - i,
        {
            key[i] = bytes[pos + i];
            i += 1;
        }
        proof {
            assert(key@ =~= bytes@.skip(pos as int).take(32));
            assert(bytes@.skip(pos + 32) =~= bytes@.skip(pos as int).skip(32));
        }
        Some((key, pos + 32))
    } else {
        None
    }
}

fn read_user(bytes: &[u8], pos: usize) -> (r: Option<(User, usize)>)
    requires
        pos <= bytes@.len(),
    ensures
        match sd_user(bytes@.skip(pos as int)) {
            Some(xr) => r matches Some(xp) && xp.0@ == xr.0 && pos <= xp.1 <= bytes@.len()
                && bytes@.skip(xp.1 as int) == xr.1,
            None => r is None,
        },
{
    let (username, p1) = match read_str(bytes, pos) {
        Some(x) => x,
        None => {
            return None;
        },
    };
    let (email, p2) = match read_str(bytes, p1) {
        Some(x) => x,
        None => {
            return None;
        },
    };
    let (beeid, p3) = match read_str(bytes, p2) {
        Some(x) => x,
        None => {
            return None;
        },
    };
    let (flag, p4) = match read_byte(bytes, p3) {
        Some(x) => x,
        None => {
            return None;
        },
    };
    let (key, p5) = match read_key(bytes, p4) {
        Some(x) => x,
        None => {
            return None;
        },
    };
    let (password_hash, p6) = match read_str(bytes, p5) {
        Some(x) => x,
        None => {
            return None;
        },
    };
    let user = User {
        username,
        email,
        beeid,
        authenticate: flag != 0,
        key,
        password_hash,
    };
    Some((user, p6))
}

fn read_users(bytes: &[u8], pos: usize) -> (r: Option<(Vec<User>, usize)>)
    requires
        pos <= bytes@.len(),
    ensures
        match sd_users(bytes@.skip(pos as int)) {
            Some(xr) => r matches Some(xp) && xp.0@.map_values(|u: User| u@) == xr.0 && pos
                <= xp.1 <= bytes@.len() && bytes@.skip(xp.1 as int) == xr.1,
            None => r is None,
        },
{
    let (n, p0) = match read_u64(bytes, pos) {
        Some(x) => x,
        None => {
            return None;
        },
    };
    let mut out: Vec<User> = Vec::new();
    let mut cur: usize = p0;
    let mut i: u64 = 0;
    proof {
        assert(out@.map_values(|u: User| u@) =~= Seq::<UserView>::empty());
    }
    while i < n
        invariant
            i <= n,
            pos <= p0 <= cur,
            cur <= bytes@.len(),
            sd_users(bytes@.skip(pos as int)) == sd_user_list(bytes@.skip(p0 as int), n),
            sd_user_list(bytes@.skip(p0 as int), n) == (match sd_user_list(
                bytes@.skip(cur as int),
                (n - i) as u64,
            ) {
                Some(xr) => Some(
                    (out@.map_values(|u: User| u@) + xr.0, xr.1),
                ),
                None => None::<(Seq<UserView>, Seq<u8>)>,
            }),
        decreases n - i,
    {
        let ghost out0 = out@;
        let (u, p2) = match read_user(bytes, cur) {
            Some(x) => x,
            None => {
                proof {
                    let rem0 = bytes@.skip(cur as int);
                    assert(sd_user(rem0) is None);
                    assert((n - i) as u64 != 0);
                    assert(sd_user_list(rem0, (n - i) as u64) is None);
                }
                return None;
            },
        };
        out.push(u);
        proof {
            let rem0 = bytes@.skip(cur as int);
            let rem1 = bytes@.skip(p2 as int);
            assert(sd_user_list(rem0, (n - i) as u64) == (match sd_user_list(
                rem1,
                (n - i - 1) as u64,
            ) {
                Some(xr2) => Some((seq![sd_user(rem0).unwrap().0] + xr2.0, xr2.1)),
                None => None::<(Seq<UserView>, Seq<u8>)>,
            }));
            assert(out@.map_values(|u2: User| u2@) =~= out0.map_values(|u2: User| u2@).push(
                sd_user(rem0).unwrap().0,
            ));
            match sd_user_list(rem1, (n - i - 1) as u64) {
                Some(xr2) => {
                    assert(out0.map_values(|u2: User| u2@) + (seq![sd_user(rem0).unwrap().0]
                        + xr2.0) =~= out@.map_values(|u2: User| u2@) + xr2.0);
                },
                None => {},
            }
        }
        cur = p2;
        i += 1;
    }
    proof {
        assert(sd_user_list(bytes@.skip(cur as int), 0) == Some(
            (Seq::<UserView>::empty(), bytes@.skip(cur as int)),
        ));
        assert(out@.map_values(|u: User| u@) + Seq::<UserView>::empty() =~= out@.map_values(
            |u: User| u@,
        ));
    }
    Some((out, cur))
}

fn read_id_list(bytes: &[u8], pos: usize, n: u64) -> (r: Option<(Vec<String>, usize)>)
    requires
        pos <= bytes@.len(),
    ensures
        match sd_id_list(bytes@.skip(pos as int), n) {
            Some(xr) => r matches Some(xp) && xp.0@.map_values(|s: String| s@) == xr.0 && pos
                <= xp.1 <= bytes@.len() && bytes@.skip(xp.1 as int) == xr.1,
            None => r is None,
        },
{
    let mut out: Vec<String> = Vec::new();
    let mut cur: usize = pos;
    let mut i: u64 = 0;
    proof {
        assert(out@.map_values(|s: String| s@) =~= Seq::<Seq<char>>::empty());
    }
    while i < n
        invariant
            i <= n,
            pos <= cur,
            cur <= bytes@.len(),
            sd_id_list(bytes@.skip(pos as int), n) == (match sd_id_list(
                bytes@.skip(cur as int),
                (n - i) as u64,
            ) {
                Some(xr) => Some(
                    (out@.map_values(|s: String| s@) + xr.0, xr.1),
                ),
                None => None::<(Seq<Seq<char>>, Seq<u8>)>,
            }),
        decreases n - i,
    {
        let ghost out0 = out@;
        let (s, p2) = match read_str(bytes, cur) {
            Some(x) => x,
            None => {
                proof {
                    let rem0 = bytes@.skip(cur as int);
                    assert(sd_str(rem0) is None);
                    assert((n - i) as u64 != 0);
                    assert(sd_id_list(rem0, (n - i) as u64) is None);
                }
                return None;
            },
        };
        out.push(s);
        proof {
            let rem0 = bytes@.skip(cur as int);
            let rem1 = bytes@.skip(p2 as int);
            assert(sd_id_list(rem0, (n - i) as u64) == (match sd_id_list(
                rem1,
                (n - i - 1) as u64,
            ) {
                Some(xr2) => Some((seq![sd_str(rem0).unwrap().0] + xr2.0, xr2.1)),
                None => None::<(Seq<Seq<char>>, Seq<u8>)>,
            }));
            assert(out@.map_values(|s2: String| s2@) =~= out0.map_values(|s2: String| s2@).push(
                sd_str(rem0).unwrap().0,
            ));
            match sd_id_list(rem1, (n - i - 1) as u64) {
                Some(xr2) => {
                    assert(out0.map_values(|s2: String| s2@) + (seq![sd_str(rem0).unwrap().0]
                        + xr2.0) =~= out@.map_values(|s2: String| s2@) + xr2.0);
                },
                None => {},
            }
        }
        cur = p2;
        i += 1;
    }
    proof {
        assert(sd_id_list(bytes@.skip(cur as int), 0) == Some(
            (Seq::<Seq<char>>::empty(), bytes@.skip(cur as int)),
        ));
        assert(out@.map_values(|s: String| s@) + Seq::<Seq<char>>::empty() =~= out@.map_values(
            |s: String| s@,
        ));
    }
    Some((out, cur))
}

fn read_link(bytes: &[u8], pos: usize) -> (r: Option<((String, Vec<String>), usize)>)
    requires
        pos <= bytes@.len(),
    ensures
        match sd_link(bytes@.skip(pos as int)) {
            Some(xr) => r matches Some(xp) && xp.0.0@ == xr.0.0 && xp.0.1@.map_values(
                |s: String| s@,
            ) == xr.0.1 && pos <= xp.1 <= bytes@.len() && bytes@.skip(xp.1 as int) == xr.1,
            None => r is None,
        },
{
    let (name, p1) = match read_str(bytes, pos) {
        Some(x) => x,
        None => {
            return None;
        },
    };
    let (n, p2) = match read_u64(bytes, p1) {
        Some(x) => x,
        None => {
            return None;
        },
    };
    let (ids, p3) = match read_id_list(bytes, p2, n) {
        Some(x) => x,
        None => {
            return None;
        },
    };
    Some(((name, ids), p3))
}

fn read_links(bytes: &[u8], pos: usize, n: u64) -> (r: Option<(Vec<(String, Vec<String>)>, usize)>)
    requires
        pos <= bytes@.len(),
    ensures
        match sd_link_list(bytes@.skip(pos as int), n) {
            Some(xr) => r matches Some(xp) && xp.0@.map_values(
                |l: (String, Vec<String>)| (l.0@, l.1@.map_values(|s: String| s@)),
            ) == xr.0 && pos <= xp.1 <= bytes@.len() && bytes@.skip(xp.1 as int) == xr.1,
            None => r is None,
        },
{
    let mut out: Vec<(String, Vec<String>)> = Vec::new();
    let mut cur: usize = pos;
    let mut i: u64 = 0;
    proof {
        assert(out@.map_values(
            |l: (String, Vec<String>)| (l.0@, l.1@.map_values(|s: String| s@)),
        ) =~= Seq::<(Seq<char>, Seq<Seq<char>>)>::empty());
    }
    while i < n
        invariant
            i <= n,
            pos <= cur,
            cur <= bytes@.len(),
            sd_link_list(bytes@.skip(pos as int), n) == (match sd_link_list(
                bytes@.skip(cur as int),
                (n - i) as u64,
            ) {
                Some(xr) => Some(
                    (
                        out@.map_values(
                            |l: (String, Vec<String>)| (l.0@, l.1@.map_values(|s: String| s@)),
                        ) + xr.0,
                        xr.1,
                    ),
                ),
                None => None::<(Seq<(Seq<char>, Seq<Seq<char>>)>, Seq<u8>)>,
            }),
        decreases n - i,
    {
        let ghost out0 = out@;
        let (l, p2) = match read_link(bytes, cur) {
            Some(x) => x,
            None => {
                proof {
                    let rem0 = bytes@.skip(cur as int);
                    assert(sd_link(rem0) is None);
                    assert((n - i) as u64 != 0);
                    assert(sd_link_list(rem0, (n - i) as u64) is None);
                }
                return None;
            },
        };
        out.push(l);
        proof {
            let lf = |l2: (String, Vec<String>)| (l2.0@, l2.1@.map_values(|s: String| s@));
            let rem0 = bytes@.skip(cur as int);
            let rem1 = bytes@.skip(p2 as int);
            assert(sd_link_list(rem0, (n - i) as u64) == (match sd_link_list(
                rem1,
                (n - i - 1) as u64,
            ) {
                Some(xr2) => Some((seq![sd_link(rem0).unwrap().0] + xr2.0, xr2.1)),
                None => None::<(Seq<(Seq<char>, Seq<Seq<char>>)>, Seq<u8>)>,
            }));
            assert(out@.map_values(lf) =~= out0.map_values(lf).push(sd_link(rem0).unwrap().0));
            match sd_link_list(rem1, (n - i - 1) as u64) {
                Some(xr2) => {
                    assert(out0.map_values(lf) + (seq![sd_link(rem0).unwrap().0] + xr2.0)
                        =~= out@.map_values(lf) + xr2.0);
                },
                None => {},
            }
        }
        cur = p2;
        i += 1;
    }
    proof {
        assert(sd_link_list(bytes@.skip(cur as int), 0) == Some(
            (Seq::<(Seq<char>, Seq<Seq<char>>)>::empty(), bytes@.skip(cur as int)),
        ));
        let lf = |l2: (String, Vec<String>)| (l2.0@, l2.1@.map_values(|s: String| s@));
        assert(out@.map_values(lf) + Seq::<(Seq<char>, Seq<Seq<char>>)>::empty() =~= out@.map_values(
            lf,
        ));
    }
    Some((out, cur))
}

/// Decodes a snapshot from bytes: succeeds exactly when the bytes are a
/// complete encoding, and then returns the encoded value.
pub fn decode_snapshot(bytes: &[u8]) -> (r: Result<Snapshot, DatabaseError>)
    ensures
        match sd_snapshot(bytes@) {
            Some(sv) => r matches Ok(s) && s@ == sv,
            None => r matches Err(e) && e is Other,
        },
{
    proof {
        assert(bytes@.skip(0) =~= bytes@);
    }
    let bad = || -> (e: DatabaseError)
        ensures
            e is Other,
        {
            proof {
                reveal_strlit("malformed snapshot");
            }
            DatabaseError::Other(String::from_str("malformed snapshot"))
        };
    let (users, p1) = match read_users(bytes, 0) {
        Some(x) => x,
        None => {
            return Err(bad());
        },
    };
    let (n, p2) = match read_u64(bytes, p1) {
        Some(x) => x,
        None => {
            return Err(bad());
        },
    };
    let (file_links, p3) = match read_links(bytes, p2, n) {
        Some(x) => x,
        None => {
            return Err(bad());
        },
    };
    if p3 != bytes.len() {
        return Err(bad());
    }
    let s = Snapshot { users, file_links };
    proof {
        assert(bytes@.skip(p3 as int).len() == 0);
    }
    Ok(s)
}

/// Decoding inverts encoding: the byte encoding of any well-formed
/// snapshot value decodes back to exactly that value.
pub proof fn lemma_snapshot_roundtrip(sv: SnapshotView)
    requires
        snapshot_enc_wf(sv),
    ensures
        sd_snapshot(enc_snapshot(sv)) == Some(sv),
{
    let b = enc_snapshot(sv);
    let tail1 = enc_user_list(sv.users) + spec_u64_to_le_bytes(sv.links.len() as u64)
        + enc_link_list(sv.links);
    assert(b =~= spec_u64_to_le_bytes(sv.users.len() as u64) + tail1);
    lemma_sd_u64_enc(sv.users.len() as u64, tail1);
    let tail2 = spec_u64_to_le_bytes(sv.links.len() as u64) + enc_link_list(sv.links);
    assert(tail1 =~= enc_user_list(sv.users) + tail2);
    lemma_sd_user_list_enc(sv.users, tail2, sv.users.len() as u64);
    let tail3 = enc_link_list(sv.links);
    assert(tail3 + Seq::<u8>::empty() =~= tail3);
    lemma_sd_u64_enc(sv.links.len() as u64, tail3);
    lemma_sd_link_list_enc(sv.links, Seq::empty(), sv.links.len() as u64);
    assert(enc_link_list(sv.links) + Seq::<u8>::empty() =~= enc_link_list(sv.links));
}

} // verus!
