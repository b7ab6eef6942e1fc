//! Fingerprinting: an execution request is first put into a canonical byte
//! form — ordered command-line tokens, environment and platform entries
//! sorted by key, the input-tree reference, the declared outputs — and the
//! content hash of that form, together with its length, is the request's
//! digest and cache key.  Two requests that differ only in the order their
//! entries are listed canonicalize to the same bytes.

use vstd::prelude::*;
use vstd::relations::{sorted_by, total_ordering};
use vstd::seq_lib::lemma_sorted_unique;
use vstd::utf8::encode_utf8;
use vstd::string::StrSliceExecFns;

use crate::digest::{Digest, DigestView};
use crate::hash::sha256_of;
use crate::wire::{blob, bytes_eq, push_blob, push_u64_le, u64_le};

verus! {

/// Why a request could not be canonicalized.  Such a request is a caller
/// bug: the error is surfaced unchanged and nothing is retried or cached.
#[derive(Clone, Copy, PartialEq, Eq, Structural, Debug)]
pub enum MalformedRequestError {
    /// The input-tree reference does not have the width of a content hash.
    InvalidInputDigest,
    /// Two environment entries share one name.
    DuplicateEnvKey,
    /// Two platform properties share one name.
    DuplicatePlatformKey,
}

/// A description of a process to run.  Immutable from the cache's point of
/// view: the cache only reads it.
#[derive(Clone, Debug, PartialEq, Eq)]
pub struct ExecutionRequest {
    /// Ordered command-line tokens.
    pub argv: Vec<String>,
    /// Environment entries, name to value; names must be unique.
    pub env: Vec<(String, String)>,
    /// Platform/resource constraints, name to value; names must be unique.
    /// These participate in the digest explicitly, so results are never
    /// shared across platforms that should not share them.
    pub platform_properties: Vec<(String, String)>,
    /// Reference to the declared input file tree.
    pub input_digest: Digest,
    /// Declared output paths.
    pub output_files: Vec<String>,
}

/// Mathematical form of an [`ExecutionRequest`].
pub ghost struct ExecutionRequestView {
    pub argv: Seq<Seq<char>>,
    pub env: Seq<(Seq<char>, Seq<char>)>,
    pub platform_properties: Seq<(Seq<char>, Seq<char>)>,
    pub input_digest: DigestView,
    pub output_files: Seq<Seq<char>>,
}

impl View for ExecutionRequest {
    type V = ExecutionRequestView;

    open spec fn view(&self) -> ExecutionRequestView {
        ExecutionRequestView {
            argv: Seq::new(self.argv@.len(), |i: int| self.argv@[i]@),
            env: Seq::new(self.env@.len(), |i: int| (self.env@[i].0@, self.env@[i].1@)),
            platform_properties: Seq::new(
                self.platform_properties@.len(),
                |i: int| (self.platform_properties@[i].0@, self.platform_properties@[i].1@),
            ),
            input_digest: self.input_digest@,
            output_files: Seq::new(self.output_files@.len(), |i: int| self.output_files@[i]@),
        }
    }
}

/// Lexicographic order on byte strings.
pub open spec fn lex_le(a: Seq<u8>, b: Seq<u8>) -> bool
    decreases a.len(),
{
    if a.len() == 0 {
        true
    } else if b.len() == 0 {
        false
    } else if a.first() < b.first() {
        true
    } else if a.first() > b.first() {
        false
    } else {
        lex_le(a.drop_first(), b.drop_first())
    }
}

/// Order on encoded entries: by key, then by value.
pub open spec fn pair_le(x: (Seq<u8>, Seq<u8>), y: (Seq<u8>, Seq<u8>)) -> bool {
    if x.0 != y.0 {
        lex_le(x.0, y.0)
    } else {
        lex_le(x.1, y.1)
    }
}

/// The entry order as a first-class relation, for the sorting lemmas.
pub open spec fn pair_le_fn() -> spec_fn((Seq<u8>, Seq<u8>), (Seq<u8>, Seq<u8>)) -> bool {
    |x: (Seq<u8>, Seq<u8>), y: (Seq<u8>, Seq<u8>)| pair_le(x, y)
}

proof fn lemma_lex_le_refl(a: Seq<u8>)
    ensures
        lex_le(a, a),
    decreases a.len(),
{
    if a.len() > 0 {
        lemma_lex_le_refl(a.drop_first());
    }
}

proof fn lemma_lex_le_antisym(a: Seq<u8>, b: Seq<u8>)
    requires
        lex_le(a, b),
        lex_le(b, a),
    ensures
        a == b,
    decreases a.len(),
{
    if a.len() == 0 {
        assert(b.len() == 0);
        assert(a =~= b);
    } else {
        lemma_lex_le_antisym(a.drop_first(), b.drop_first());
        assert(a =~= seq![a.first()] + a.drop_first());
        assert(b =~= seq![b.first()] + b.drop_first());
    }
}

proof fn lemma_lex_le_trans(a: Seq<u8>, b: Seq<u8>, c: Seq<u8>)
    requires
        lex_le(a, b),
        lex_le(b, c),
    ensures
        lex_le(a, c),
    decreases a.len(),
{
    if a.len() == 0 || b.len() == 0 || c.len() == 0 {
    } else {
        if a.first() == b.first() && b.first() == c.first() {
            lemma_lex_le_trans(a.drop_first(), b.drop_first(), c.drop_first());
        }
    }
}

proof fn lemma_lex_le_connected(a: Seq<u8>, b: Seq<u8>)
    ensures
        lex_le(a, b) || lex_le(b, a),
    decreases a.len(),
{
    if a.len() == 0 || b.len() == 0 {
    } else if a.first() == b.first() {
        lemma_lex_le_connected(a.drop_first(), b.drop_first());
    }
}

/// The entry order is a total order, as the sorting lemmas require.
pub proof fn lemma_pair_le_total_ordering()
    ensures
        total_ordering(pair_le_fn()),
{
    let leq = pair_le_fn();
    assert forall|x: (Seq<u8>, Seq<u8>)| #[trigger] leq(x, x) by {
        lemma_lex_le_refl(x.1);
    }
    assert forall|x: (Seq<u8>, Seq<u8>), y: (Seq<u8>, Seq<u8>)|
        #[trigger] leq(x, y) && #[trigger] leq(y, x) implies x == y by {
        if x.0 != y.0 {
            lemma_lex_le_antisym(x.0, y.0);
        } else {
            lemma_lex_le_antisym(x.1, y.1);
            assert(x == (x.0, x.1));
            assert(y == (y.0, y.1));
        }
    }
    assert forall|x: (Seq<u8>, Seq<u8>), y: (Seq<u8>, Seq<u8>), z: (Seq<u8>, Seq<u8>)|
        #[trigger] leq(x, y) && #[trigger] leq(y, z) implies leq(x, z) by {
        if x.0 != y.0 {
            lemma_lex_le_refl(y.0);
        }
        if y.0 != z.0 {
            lemma_lex_le_refl(z.0);
        }
        assert(lex_le(x.0, y.0)) by {
            if x.0 == y.0 {
                lemma_lex_le_refl(x.0);
            }
        }
        assert(lex_le(y.0, z.0)) by {
            if y.0 == z.0 {
                lemma_lex_le_refl(y.0);
            }
        }
        lemma_lex_le_trans(x.0, y.0, z.0);
        if x.0 == z.0 {
            lemma_lex_le_antisym(x.0, y.0);
            lemma_lex_le_trans(x.1, y.1, z.1);
        }
    }
    assert forall|x: (Seq<u8>, Seq<u8>), y: (Seq<u8>, Seq<u8>)|
        #[trigger] leq(x, y) || #[trigger] leq(y, x) by {
        if x.0 == y.0 {
            lemma_lex_le_connected(x.1, y.1);
        } else {
            lemma_lex_le_connected(x.0, y.0);
        }
    }
}

/// The views of a vector of encoded entries.
pub open spec fn pv(v: Seq<(Vec<u8>, Vec<u8>)>) -> Seq<(Seq<u8>, Seq<u8>)> {
    Seq::new(v.len(), |i: int| (v[i].0@, v[i].1@))
}

/// UTF-8 encodings of a sequence of strings.
pub open spec fn strs_bytes(s: Seq<Seq<char>>) -> Seq<Seq<u8>> {
    Seq::new(s.len(), |i: int| encode_utf8(s[i]))
}

/// UTF-8 encodings of a sequence of name/value entries.
pub open spec fn pairs_bytes(s: Seq<(Seq<char>, Seq<char>)>) -> Seq<(Seq<u8>, Seq<u8>)> {
    Seq::new(s.len(), |i: int| (encode_utf8(s[i].0), encode_utf8(s[i].1)))
}

/// Two entries somewhere in the sequence share one key.
pub open spec fn has_dup_keys(s: Seq<(Seq<u8>, Seq<u8>)>) -> bool {
    exists|i: int, j: int| 0 <= i < j < s.len() && s[i].0 == s[j].0
}

/// Concatenated length-prefixed blobs.
pub open spec fn cat_blobs(s: Seq<Seq<u8>>) -> Seq<u8>
    decreases s.len(),
{
    if s.len() == 0 {
        Seq::empty()
    } else {
        blob(s.first()) + cat_blobs(s.drop_first())
    }
}

/// Concatenated entry encodings: each key blob, then its value blob.
pub open spec fn cat_pair_blobs(s: Seq<(Seq<u8>, Seq<u8>)>) -> Seq<u8>
    decreases s.len(),
{
    if s.len() == 0 {
        Seq::empty()
    } else {
        blob(s.first().0) + blob(s.first().1) + cat_pair_blobs(s.drop_first())
    }
}

/// The canonical byte form of a request: counted, length-prefixed fields
/// with environment and platform entries sorted by the entry order.
pub open spec fn canonical_bytes(rv: ExecutionRequestView) -> Seq<u8> {
    u64_le(rv.argv.len() as u64) + cat_blobs(strs_bytes(rv.argv)) + u64_le(rv.env.len() as u64)
        + cat_pair_blobs(pairs_bytes(rv.env).sort_by(pair_le_fn())) + u64_le(
        rv.platform_properties.len() as u64,
    ) + cat_pair_blobs(pairs_bytes(rv.platform_properties).sort_by(pair_le_fn())) + blob(
        rv.input_digest.fingerprint,
    ) + u64_le(rv.input_digest.size) + u64_le(rv.output_files.len() as u64) + cat_blobs(
        strs_bytes(rv.output_files),
    )
}

/// Inserting an element into a sequence inserts it into the multiset.
proof fn lemma_seq_insert_to_multiset<A>(s: Seq<A>, j: int, p: A)
    requires
        0 <= j <= s.len(),
    ensures
        s.insert(j, p).to_multiset() =~= s.to_multiset().insert(p),
{
    broadcast use vstd::seq_lib::group_to_multiset_ensures;
    broadcast use vstd::multiset::group_multiset_axioms;

    let t = s.insert(j, p);
    assert(t.remove(j) =~= s);
    assert(t[j] == p);
    assert(t.remove(j).to_multiset() =~= t.to_multiset().remove(p));
    assert(t.to_multiset().contains(p));
    assert forall|x: A| t.to_multiset().count(x) == s.to_multiset().insert(p).count(x) by {
        if x == p {
            assert(t.to_multiset().remove(p).count(p) == t.to_multiset().count(p) - 1);
        } else {
            assert(t.to_multiset().remove(p).count(x) == t.to_multiset().count(x));
        }
    }
    assert(t.to_multiset() =~= s.to_multiset().insert(p));
}

/// Blob concatenation distributes over sequence concatenation.
proof fn lemma_cat_blobs_concat(a: Seq<Seq<u8>>, b: Seq<Seq<u8>>)
    ensures
        cat_blobs(a + b) == cat_blobs(a) + cat_blobs(b),
    decreases a.len(),
{
    if a.len() == 0 {
        assert(a + b =~= b);
        assert(cat_blobs(a) + cat_blobs(b) =~= cat_blobs(b));
    } else {
        assert((a + b).first() == a.first());
        assert((a + b).drop_first() =~= a.drop_first() + b);
        lemma_cat_blobs_concat(a.drop_first(), b);
        assert(blob(a.first()) + (cat_blobs(a.drop_first()) + cat_blobs(b)) =~= (blob(a.first())
            + cat_blobs(a.drop_first())) + cat_blobs(b));
    }
}

/// Entry concatenation distributes over sequence concatenation.
proof fn lemma_cat_pair_blobs_concat(a: Seq<(Seq<u8>, Seq<u8>)>, b: Seq<(Seq<u8>, Seq<u8>)>)
    ensures
        cat_pair_blobs(a + b) == cat_pair_blobs(a) + cat_pair_blobs(b),
    decreases a.len(),
{
    if a.len() == 0 {
        assert(a + b =~= b);
        assert(cat_pair_blobs(a) + cat_pair_blobs(b) =~= cat_pair_blobs(b));
    } else {
        assert((a + b).first() == a.first());
        assert((a + b).drop_first() =~= a.drop_first() + b);
        lemma_cat_pair_blobs_concat(a.drop_first(), b);
        assert(blob(a.first().0) + blob(a.first().1) + (cat_pair_blobs(a.drop_first())
            + cat_pair_blobs(b)) =~= (blob(a.first().0) + blob(a.first().1) + cat_pair_blobs(
            a.drop_first(),
        )) + cat_pair_blobs(b));
    }
}

/// Lexicographic comparison of two byte strings.
fn lex_le_exec(a: &Vec<u8>, b: &Vec<u8>) -> (r: bool)
    ensures
        r == lex_le(a@, b@),
{
    let mut i: usize = 0;
    let alen = a.len();
    let blen = b.len();
    proof {
        assert(a@.skip(0) =~= a@);
        assert(b@.skip(0) =~= b@);
    }
    while i < alen && i < blen
        invariant
            i <= alen,
            i <= blen,
            alen == a@.len(),
            blen == b@.len(),
            lex_le(a@, b@) == lex_le(a@.skip(i as int), b@.skip(i as int)),
            lex_le(b@, a@) == lex_le(b@.skip(i as int), a@.skip(i as int)),
        decreases alen - i,
    {
        if a[i] < b[i] {
            return true;
        }
        if a[i] > b[i] {
            return false;
        }
        proof {
            assert(a@.skip(i as int).first() == a@[i as int]);
            assert(a@.skip(i as int).drop_first() =~= a@.skip(i as int + 1));
            assert(b@.skip(i as int).first() == b@[i as int]);
            assert(b@.skip(i as int).drop_first() =~= b@.skip(i as int + 1));
        }
        i = i + 1;
    }
    proof {
        if i >= alen {
            assert(a@.skip(i as int).len() == 0);
        } else {
            assert(b@.skip(i as int).len() == 0);
            assert(a@.skip(i as int).len() > 0);
        }
    }
    alen <= blen
}

/// Entry comparison: by key, then by value.
fn pair_le_exec(x: &(Vec<u8>, Vec<u8>), y: &(Vec<u8>, Vec<u8>)) -> (r: bool)
    ensures
        r == pair_le((x.0@, x.1@), (y.0@, y.1@)),
{
    if !bytes_eq(&x.0, &y.0) {
        lex_le_exec(&x.0, &y.0)
    } else {
        lex_le_exec(&x.1, &y.1)
    }
}

/// First position in the sorted run `out` whose entry is not at or below
/// `p`: the place where `p` belongs.
fn find_insert_pos(out: &Vec<(Vec<u8>, Vec<u8>)>, p: &(Vec<u8>, Vec<u8>)) -> (j: usize)
    ensures
        j <= out@.len(),
        forall|k: int| 0 <= k < j ==> pair_le(pv(out@)[k], (p.0@, p.1@)),
        j < out@.len() ==> !pair_le(pv(out@)[j as int], (p.0@, p.1@)),
{
    let mut j: usize = 0;
    while j < out.len()
        invariant
            j <= out@.len(),
            forall|k: int| 0 <= k < j ==> pair_le(pv(out@)[k], (p.0@, p.1@)),
        decreases out@.len() - j,
    {
        if !pair_le_exec(&out[j], p) {
            return j;
        }
        j = j + 1;
    }
    j
}

/// Sort encoded entries by the entry order.
fn sort_pairs(v: Vec<(Vec<u8>, Vec<u8>)>) -> (r: Vec<(Vec<u8>, Vec<u8>)>)
    ensures
        sorted_by(pv(r@), pair_le_fn()),
        pv(r@).to_multiset() == pv(v@).to_multiset(),
        r@.len() == v@.len(),
{
    proof {
        lemma_pair_le_total_ordering();
    }
    let ghost leq = pair_le_fn();
    let ghost full = pv(v@);
    let mut rest = v;
    let mut out: Vec<(Vec<u8>, Vec<u8>)> = Vec::new();
    proof {
        broadcast use vstd::seq_lib::group_to_multiset_ensures;
        broadcast use vstd::multiset::group_multiset_axioms;

        assert(pv(out@) =~= Seq::<(Seq<u8>, Seq<u8>)>::empty());
        assert(pv(rest@) =~= full);
        assert(pv(out@).to_multiset().len() == 0);
        assert forall|x: (Seq<u8>, Seq<u8>)|
            pv(out@).to_multiset().add(pv(rest@).to_multiset()).count(x) == full.to_multiset().count(
            x,
        ) by {
            vstd::multiset::axiom_count_le_len(pv(out@).to_multiset(), x);
        }
        assert(pv(out@).to_multiset().add(pv(rest@).to_multiset()) =~= full.to_multiset());
    }
    while rest.len() > 0
        invariant
            sorted_by(pv(out@), pair_le_fn()),
            pv(out@).to_multiset().add(pv(rest@).to_multiset()) == full.to_multiset(),
            out@.len() + rest@.len() == full.len(),
            leq == pair_le_fn(),
            total_ordering(leq),
        decreases rest@.len(),
    {
        let ghost rest0 = pv(rest@);
        let p = rest.remove(0);
        proof {
            broadcast use vstd::seq_lib::group_to_multiset_ensures;

            assert(pv(rest@) =~= rest0.drop_first());
            assert(rest0.drop_first() =~= rest0.remove(0));
            assert(rest0.remove(0).to_multiset() =~= rest0.to_multiset().remove(rest0[0]));
            assert(rest0[0] == (p.0@, p.1@));
        }
        let j = find_insert_pos(&out, &p);
        let ghost out0 = pv(out@);
        let ghost pview = (p.0@, p.1@);
        proof {
            broadcast use vstd::seq_lib::group_to_multiset_ensures;
            broadcast use vstd::multiset::group_multiset_axioms;

            lemma_seq_insert_to_multiset(out0, j as int, pview);
            let t = out0.insert(j as int, pview);
            assert forall|a: int, b: int| 0 <= a < b < t.len() implies #[trigger] leq(
                t[a],
                t[b],
            ) by {
                if b == j {
                    assert(t[a] == out0[a]);
                    assert(pair_le(out0[a], pview));
                } else if a == j {
                    assert(j < out0.len());
                    assert(!pair_le(out0[j as int], pview));
                    assert(leq(pview, out0[j as int]) || leq(out0[j as int], pview));
                    if b - 1 > j {
                        assert(leq(out0[j as int], out0[b - 1]));
                    }
                    assert(leq(pview, out0[b - 1]));
                    assert(t[b] == out0[b - 1]);
                } else if a < j && b > j {
                    assert(t[a] == out0[a] && t[b] == out0[b - 1]);
                    if a < b - 1 {
                        assert(leq(out0[a], out0[b - 1]));
                    } else {
                        assert(leq(out0[a], out0[a]));
                    }
                } else if a > j {
                    assert(t[a] == out0[a - 1] && t[b] == out0[b - 1]);
                    assert(leq(out0[a - 1], out0[b - 1]));
                } else {
                    assert(t[a] == out0[a] && t[b] == out0[b]);
                    assert(leq(out0[a], out0[b]));
                }
            }
            assert(rest0.to_multiset().contains(pview)) by {
                assert(rest0[0] == pview);
            }
            assert forall|x: (Seq<u8>, Seq<u8>)|
                t.to_multiset().add(rest0.to_multiset().remove(pview)).count(x)
                    == out0.to_multiset().add(rest0.to_multiset()).count(x) by {
                if x == pview {
                    assert(rest0.to_multiset().count(pview) >= 1);
                }
            }
            assert(t.to_multiset().add(rest0.to_multiset().remove(pview))
                =~= out0.to_multiset().add(rest0.to_multiset()));
        }
        out.insert(j, p);
        proof {
            assert(pv(out@) =~= out0.insert(j as int, pview));
        }
    }
    proof {
        broadcast use vstd::seq_lib::group_to_multiset_ensures;
        broadcast use vstd::multiset::group_multiset_axioms;

        assert(pv(rest@).to_multiset().len() == 0);
        assert forall|x: (Seq<u8>, Seq<u8>)| pv(out@).to_multiset().count(x) == full.to_multiset().count(
            x,
        ) by {
            vstd::multiset::axiom_count_le_len(pv(rest@).to_multiset(), x);
        }
        assert(pv(out@).to_multiset() =~= full.to_multiset());
    }
    out
}

/// Do two entries somewhere in `v` share one key?
fn find_dup_keys(v: &Vec<(Vec<u8>, Vec<u8>)>) -> (r: bool)
    ensures
        r == has_dup_keys(pv(v@)),
{
    let n = v.len();
    let mut i: usize = 0;
    while i < n
        invariant
            i <= n,
            n == v@.len(),
            forall|a: int, b: int| 0 <= a < b < n && a < i ==> pv(v@)[a].0 != pv(v@)[b].0,
        decreases n - i,
    {
        let mut j: usize = i + 1;
        while j < n
            invariant
                i < j <= n,
                n == v@.len(),
                forall|b: int| i < b < j ==> pv(v@)[i as int].0 != pv(v@)[b].0,
            decreases n - j,
        {
            if bytes_eq(&v[i].0, &v[j].0) {
                proof {
                    assert(pv(v@)[i as int].0 == pv(v@)[j as int].0);
                }
                return true;
            }
            j = j + 1;
        }
        i = i + 1;
    }
    false
}

/// The views of a vector of strings.
pub open spec fn strs_view(v: Seq<String>) -> Seq<Seq<char>> {
    Seq::new(v.len(), |i: int| v[i]@)
}

/// The views of a vector of string entries.
pub open spec fn pairs_view(v: Seq<(String, String)>) -> Seq<(Seq<char>, Seq<char>)> {
    Seq::new(v.len(), |i: int| (v[i].0@, v[i].1@))
}

/// Encode each entry's name and value as UTF-8 bytes.
fn pairs_to_bytes(v: &Vec<(String, String)>) -> (r: Vec<(Vec<u8>, Vec<u8>)>)
    ensures
        pv(r@) == pairs_bytes(pairs_view(v@)),
{
    let mut r: Vec<(Vec<u8>, Vec<u8>)> = Vec::new();
    let mut i: usize = 0;
    while i < v.len()
        invariant
            i <= v@.len(),
            r@.len() == i,
            pv(r@) == pairs_bytes(pairs_view(v@)).take(i as int),
        decreases v@.len() - i,
    {
        let kb = v[i].0.as_str().as_bytes_vec();
        let vb = v[i].1.as_str().as_bytes_vec();
        r.push((kb, vb));
        proof {
            assert(pv(r@) =~= pairs_bytes(pairs_view(v@)).take(i + 1));
        }
        i = i + 1;
    }
    proof {
        assert(pairs_bytes(pairs_view(v@)).take(v@.len() as int) =~= pairs_bytes(pairs_view(v@)));
    }
    r
}

/// Append a counted list of length-prefixed strings to `out`.
fn encode_str_list(out: &mut Vec<u8>, v: &Vec<String>)
    ensures
        final(out)@ == old(out)@ + u64_le(v@.len() as u64) + cat_blobs(strs_bytes(strs_view(v@))),
{
    push_u64_le(out, v.len() as u64);
    let ghost prefix = out@;
    let ghost sb = strs_bytes(strs_view(v@));
    proof {
        assert(sb.take(0) =~= Seq::<Seq<u8>>::empty());
        assert(out@ =~= prefix + cat_blobs(sb.take(0)));
    }
    let mut i: usize = 0;
    while i < v.len()
        invariant
            i <= v@.len(),
            sb == strs_bytes(strs_view(v@)),
            prefix == old(out)@ + u64_le(v@.len() as u64),
            out@ == prefix + cat_blobs(sb.take(i as int)),
        decreases v@.len() - i,
    {
        let bvec = v[i].as_str().as_bytes_vec();
        push_blob(out, &bvec);
        proof {
            assert(sb.take(i + 1) =~= sb.take(i as int) + seq![sb[i as int]]);
            lemma_cat_blobs_concat(sb.take(i as int), seq![sb[i as int]]);
            assert(seq![sb[i as int]].drop_first() =~= Seq::<Seq<u8>>::empty());
            assert(cat_blobs(seq![sb[i as int]]) == blob(sb[i as int]) + cat_blobs(
                seq![sb[i as int]].drop_first(),
            ));
            assert(cat_blobs(Seq::<Seq<u8>>::empty()) == Seq::<u8>::empty());
            assert(cat_blobs(seq![sb[i as int]]) =~= blob(sb[i as int]));
            assert(bvec@ == sb[i as int]);
            assert(out@ =~= prefix + cat_blobs(sb.take(i + 1)));
        }
        i = i + 1;
    }
    proof {
        assert(sb.take(sb.len() as int) =~= sb);
        assert(out@ =~= old(out)@ + u64_le(v@.len() as u64) + cat_blobs(sb));
    }
}

/// Append a counted list of encoded entries to `out`; the count is the
/// number of entries in the original request.
fn encode_pair_list(out: &mut Vec<u8>, count: usize, entries: &Vec<(Vec<u8>, Vec<u8>)>)
    ensures
        final(out)@ == old(out)@ + u64_le(count as u64) + cat_pair_blobs(pv(entries@)),
{
    push_u64_le(out, count as u64);
    let ghost prefix = out@;
    let ghost sb = pv(entries@);
    proof {
        assert(sb.take(0) =~= Seq::<(Seq<u8>, Seq<u8>)>::empty());
        assert(out@ =~= prefix + cat_pair_blobs(sb.take(0)));
    }
    let mut i: usize = 0;
    while i < entries.len()
        invariant
            i <= entries@.len(),
            sb == pv(entries@),
            prefix == old(out)@ + u64_le(count as u64),
            out@ == prefix + cat_pair_blobs(sb.take(i as int)),
        decreases entries@.len() - i,
    {
        push_blob(out, &entries[i].0);
        push_blob(out, &entries[i].1);
        proof {
            assert(sb.take(i + 1) =~= sb.take(i as int) + seq![sb[i as int]]);
            lemma_cat_pair_blobs_concat(sb.take(i as int), seq![sb[i as int]]);
            assert(seq![sb[i as int]].drop_first() =~= Seq::<(Seq<u8>, Seq<u8>)>::empty());
            assert(cat_pair_blobs(seq![sb[i as int]]) == blob(sb[i as int].0) + blob(
                sb[i as int].1,
            ) + cat_pair_blobs(seq![sb[i as int]].drop_first()));
            assert(cat_pair_blobs(Seq::<(Seq<u8>, Seq<u8>)>::empty()) == Seq::<u8>::empty());
            assert(cat_pair_blobs(seq![sb[i as int]]) =~= blob(sb[i as int].0) + blob(
                sb[i as int].1,
            ));
            assert(out@ =~= prefix + cat_pair_blobs(sb.take(i + 1)));
        }
        i = i + 1;
    }
    proof {
        assert(sb.take(sb.len() as int) =~= sb);
        assert(out@ =~= old(out)@ + u64_le(count as u64) + cat_pair_blobs(sb));
    }
}

/// The digest of a request, or the exact reason it is malformed.
pub open spec fn fingerprint_spec(rv: ExecutionRequestView) -> Result<
    DigestView,
    MalformedRequestError,
> {
    if !rv.input_digest.wf() {
        Err(MalformedRequestError::InvalidInputDigest)
    } else if has_dup_keys(pairs_bytes(rv.env).sort_by(pair_le_fn())) {
        Err(MalformedRequestError::DuplicateEnvKey)
    } else if has_dup_keys(pairs_bytes(rv.platform_properties).sort_by(pair_le_fn())) {
        Err(MalformedRequestError::DuplicatePlatformKey)
    } else {
        Ok(
            DigestView {
                fingerprint: sha256_of(canonical_bytes(rv)),
                size: canonical_bytes(rv).len() as u64,
            },
        )
    }
}

/// Compute the digest of a request: its cache key.
///
/// Pure and deterministic; fails exactly when the request cannot be
/// canonicalized, as [`fingerprint_spec`] states, and such a failure is a
/// caller bug, never retried and never cached.
#[verifier::rlimit(100)]
pub fn fingerprint(req: &ExecutionRequest) -> (r: Result<Digest, MalformedRequestError>)
    ensures
        (match r {
            Ok(d) => fingerprint_spec(req@) == Ok::<DigestView, MalformedRequestError>(d@)
                && d.wf(),
            Err(e) => fingerprint_spec(req@) == Err::<DigestView, MalformedRequestError>(e),
        }),
{
    if req.input_digest.fingerprint.len() != crate::FINGERPRINT_LEN {
        return Err(MalformedRequestError::InvalidInputDigest);
    }
    let envb = pairs_to_bytes(&req.env);
    let env_sorted = sort_pairs(envb);
    proof {
        lemma_pair_le_total_ordering();
        assert(pairs_view(req.env@) =~= req@.env);
        pairs_bytes(req@.env).lemma_sort_by_ensures(pair_le_fn());
        lemma_sorted_unique(
            pv(env_sorted@),
            pairs_bytes(req@.env).sort_by(pair_le_fn()),
            pair_le_fn(),
        );
    }
    if find_dup_keys(&env_sorted) {
        return Err(MalformedRequestError::DuplicateEnvKey);
    }
    let platb = pairs_to_bytes(&req.platform_properties);
    let plat_sorted = sort_pairs(platb);
    proof {
        lemma_pair_le_total_ordering();
        assert(pairs_view(req.platform_properties@) =~= req@.platform_properties);
        pairs_bytes(req@.platform_properties).lemma_sort_by_ensures(pair_le_fn());
        lemma_sorted_unique(
            pv(plat_sorted@),
            pairs_bytes(req@.platform_properties).sort_by(pair_le_fn()),
            pair_le_fn(),
        );
    }
    if find_dup_keys(&plat_sorted) {
        return Err(MalformedRequestError::DuplicatePlatformKey);
    }
    let mut out: Vec<u8> = Vec::new();
    encode_str_list(&mut out, &req.argv);
    encode_pair_list(&mut out, req.env.len(), &env_sorted);
    encode_pair_list(&mut out, req.platform_properties.len(), &plat_sorted);
    push_blob(&mut out, &req.input_digest.fingerprint);
    push_u64_le(&mut out, req.input_digest.size);
    encode_str_list(&mut out, &req.output_files);
    proof {
        assert(strs_view(req.argv@) =~= req@.argv);
        assert(strs_view(req.output_files@) =~= req@.output_files);
        assert(out@ =~= canonical_bytes(req@));
    }
    let h = crate::hash::sha256(&out);
    let size = out.len() as u64;
    Ok(Digest { fingerprint: h, size })
}

/// Replacing a sequence of entries by one with the same members gives the
/// same members after UTF-8 encoding.
proof fn lemma_pairs_bytes_multiset(s1: Seq<(Seq<char>, Seq<char>)>, s2: Seq<(Seq<char>, Seq<char>)>)
    requires
        s1.to_multiset() == s2.to_multiset(),
    ensures
        pairs_bytes(s1).to_multiset() == pairs_bytes(s2).to_multiset(),
    decreases s1.len(),
{
    broadcast use vstd::seq_lib::group_to_multiset_ensures;
    broadcast use vstd::multiset::group_multiset_axioms;

    s1.to_multiset_ensures();
    s2.to_multiset_ensures();
    if s1.len() == 0 {
        assert(s2.len() == 0);
        assert(pairs_bytes(s1) =~= pairs_bytes(s2));
    } else {
        let x = s1[0];
        assert(s1.to_multiset().contains(x));
        assert(s2.contains(x));
        let j = choose|j: int| 0 <= j < s2.len() && s2[j] == x;
        let s1p = s1.remove(0);
        let s2p = s2.remove(j);
        assert(s1p.to_multiset() =~= s1.to_multiset().remove(x));
        assert(s2p.to_multiset() =~= s2.to_multiset().remove(x));
        lemma_pairs_bytes_multiset(s1p, s2p);
        let bx = (encode_utf8(x.0), encode_utf8(x.1));
        assert(pairs_bytes(s1p) =~= pairs_bytes(s1).remove(0));
        assert(pairs_bytes(s2p) =~= pairs_bytes(s2).remove(j));
        assert(pairs_bytes(s1)[0] == bx);
        assert(pairs_bytes(s2)[j] == bx);
        assert(pairs_bytes(s1).remove(0).to_multiset() =~= pairs_bytes(s1).to_multiset().remove(
            bx,
        ));
        assert(pairs_bytes(s2).remove(j).to_multiset() =~= pairs_bytes(s2).to_multiset().remove(
            bx,
        ));
        assert(pairs_bytes(s1).to_multiset().contains(bx));
        assert(pairs_bytes(s2).to_multiset().contains(bx));
        assert forall|y: (Seq<u8>, Seq<u8>)|
            pairs_bytes(s1).to_multiset().count(y) == pairs_bytes(s2).to_multiset().count(y) by {
            if y == bx {
                assert(pairs_bytes(s1).to_multiset().remove(bx).count(bx) == pairs_bytes(
                    s1,
                ).to_multiset().count(bx) - 1);
                assert(pairs_bytes(s2).to_multiset().remove(bx).count(bx) == pairs_bytes(
                    s2,
                ).to_multiset().count(bx) - 1);
            } else {
                assert(pairs_bytes(s1).to_multiset().remove(bx).count(y) == pairs_bytes(
                    s1,
                ).to_multiset().count(y));
                assert(pairs_bytes(s2).to_multiset().remove(bx).count(y) == pairs_bytes(
                    s2,
                ).to_multiset().count(y));
            }
        }
        assert(pairs_bytes(s1).to_multiset() =~= pairs_bytes(s2).to_multiset());
    }
}

/// Determinism: two requests that are structurally equal apart from the
/// order in which their environment and platform entries are listed have
/// equal fingerprints — including equal outcomes when they are malformed.
pub proof fn lemma_fingerprint_deterministic(r1: ExecutionRequestView, r2: ExecutionRequestView)
    requires
        r1.argv == r2.argv,
        r1.input_digest == r2.input_digest,
        r1.output_files == r2.output_files,
        r1.env.to_multiset() == r2.env.to_multiset(),
        r1.platform_properties.to_multiset() == r2.platform_properties.to_multiset(),
    ensures
        fingerprint_spec(r1) == fingerprint_spec(r2),
{
    broadcast use vstd::seq_lib::group_to_multiset_ensures;

    lemma_pair_le_total_ordering();
    lemma_pairs_bytes_multiset(r1.env, r2.env);
    pairs_bytes(r1.env).lemma_sort_by_ensures(pair_le_fn());
    pairs_bytes(r2.env).lemma_sort_by_ensures(pair_le_fn());
    lemma_sorted_unique(
        pairs_bytes(r1.env).sort_by(pair_le_fn()),
        pairs_bytes(r2.env).sort_by(pair_le_fn()),
        pair_le_fn(),
    );
    lemma_pairs_bytes_multiset(r1.platform_properties, r2.platform_properties);
    pairs_bytes(r1.platform_properties).lemma_sort_by_ensures(pair_le_fn());
    pairs_bytes(r2.platform_properties).lemma_sort_by_ensures(pair_le_fn());
    lemma_sorted_unique(
        pairs_bytes(r1.platform_properties).sort_by(pair_le_fn()),
        pairs_bytes(r2.platform_properties).sort_by(pair_le_fn()),
        pair_le_fn(),
    );
    r1.env.to_multiset_ensures();
    r2.env.to_multiset_ensures();
    r1.platform_properties.to_multiset_ensures();
    r2.platform_properties.to_multiset_ensures();
    assert(r1.env.len() == r2.env.len());
    assert(r1.platform_properties.len() == r2.platform_properties.len());
    assert(canonical_bytes(r1) == canonical_bytes(r2));
}

} // verus!
