//! Byte-level byte-pair encoding: a vocabulary of byte strings grown by
//! merging the most frequent adjacent pair, and the codec that replays
//! those merges.

use vstd::prelude::*;
use vstd::seq_lib::lemma_flatten_concat;
use vstd::utf8::{decode_utf8, encode_utf8, encode_utf8_decode_utf8, encode_utf8_valid_utf8, valid_utf8};
use crate::text::{lossy_utf8, utf8_lossy};

verus! {

broadcast use vstd::seq_lib::group_seq_properties;

/// Id of the unknown-token sentinel; it is never reassigned.
pub const UNK_ID: u32 = 0;

/// The bytes of the unknown-token sentinel, `<unk>`.
pub open spec fn unk_bytes() -> Seq<u8> {
    seq![60u8, 117u8, 110u8, 107u8, 62u8]
}

/// What a byte-level BPE instance holds: the tokens, each at the index that
/// is its id, and the merge rules in the order in which they were learned.
pub struct BpeModel {
    pub tokens: Seq<Seq<u8>>,
    pub merges: Seq<(Seq<u8>, Seq<u8>)>,
}

impl BpeModel {
    /// Ids fit in `u32`, id 0 is the unknown token, no token appears twice,
    /// and the token that each merge rule produces is in the vocabulary.
    pub open spec fn wf(self) -> bool {
        &&& 1 <= self.tokens.len() <= u32::MAX
        &&& self.tokens[0] == unk_bytes()
        &&& self.tokens.no_duplicates()
        &&& forall|k: int|
            0 <= k < self.merges.len() ==> self.tokens.contains(
                #[trigger] self.merges[k].0 + self.merges[k].1,
            )
    }
}

/// The id of `t`: its index in `tokens`, or the unknown id when absent.
pub open spec fn id_of(tokens: Seq<Seq<u8>>, t: Seq<u8>) -> int {
    if tokens.contains(t) {
        choose|i: int| 0 <= i < tokens.len() && tokens[i] == t
    } else {
        UNK_ID as int
    }
}

/// The bytes that `id` stands for; the unknown token's bytes when no token
/// has that id.
pub open spec fn token_of(tokens: Seq<Seq<u8>>, id: int) -> Seq<u8> {
    if 0 <= id < tokens.len() {
        tokens[id]
    } else {
        unk_bytes()
    }
}

/// Each byte as a token of its own.
pub open spec fn singletons(b: Seq<u8>) -> Seq<Seq<u8>> {
    b.map_values(|x: u8| seq![x])
}

/// Replaces, scanning left to right, each non-overlapping occurrence of the
/// adjacent pair `(a, b)` by the single token `a + b`.
pub open spec fn merge_pair(s: Seq<Seq<u8>>, a: Seq<u8>, b: Seq<u8>) -> Seq<Seq<u8>>
    decreases s.len(),
{
    if s.len() < 2 {
        s
    } else if s[0] == a && s[1] == b {
        seq![a + b] + merge_pair(s.skip(2), a, b)
    } else {
        seq![s[0]] + merge_pair(s.skip(1), a, b)
    }
}

/// Applies the merge rules to `s`, first rule first.
pub open spec fn apply_merges(merges: Seq<(Seq<u8>, Seq<u8>)>, s: Seq<Seq<u8>>) -> Seq<Seq<u8>>
    decreases merges.len(),
{
    if merges.len() == 0 {
        s
    } else {
        let rule = merges.last();
        merge_pair(apply_merges(merges.drop_last(), s), rule.0, rule.1)
    }
}

/// The tokens into which `model` splits `bytes`.
pub open spec fn segment(model: BpeModel, bytes: Seq<u8>) -> Seq<Seq<u8>> {
    apply_merges(model.merges, singletons(bytes))
}

/// The ids that `model` gives `bytes`.
pub open spec fn encode_bytes(model: BpeModel, bytes: Seq<u8>) -> Seq<u32> {
    segment(model, bytes).map_values(|t: Seq<u8>| id_of(model.tokens, t) as u32)
}

/// The bytes that `ids` stand for, concatenated.
pub open spec fn decode_bytes(model: BpeModel, ids: Seq<u32>) -> Seq<u8> {
    ids.map_values(|id: u32| token_of(model.tokens, id as int)).flatten()
}

/// The views of a vector of byte vectors.
pub open spec fn views(v: Seq<Vec<u8>>) -> Seq<Seq<u8>> {
    v.map_values(|t: Vec<u8>| t@)
}

/// Whether `a` and `b` hold the same bytes.
fn bytes_eq(a: &[u8], b: &[u8]) -> (r: bool)
    ensures
        r == (a@ == b@),
{
    if a.len() != b.len() {
        return false;
    }
    let mut i: usize = 0;
    while i < a.len()
        invariant
            a@.len() == b@.len(),
            0 <= i <= a@.len(),
            forall|k: int| 0 <= k < i ==> a@[k] == b@[k],
        decreases a@.len() - i,
    {
        if a[i] != b[i] {
            return false;
        }
        i = i + 1;
    }
    assert(a@ =~= b@);
    true
}

/// The bytes of `a` followed by those of `b`.
fn concat(a: &[u8], b: &[u8]) -> (r: Vec<u8>)
    ensures
        r@ == a@ + b@,
{
    let mut r: Vec<u8> = Vec::new();
    let mut i: usize = 0;
    while i < a.len()
        invariant
            0 <= i <= a@.len(),
            r@ == a@.take(i as int),
        decreases a@.len() - i,
    {
        r.push(a[i]);
        i = i + 1;
        assert(r@ =~= a@.take(i as int));
    }
    let mut j: usize = 0;
    while j < b.len()
        invariant
            0 <= j <= b@.len(),
            r@ == a@ + b@.take(j as int),
        decreases b@.len() - j,
    {
        r.push(b[j]);
        j = j + 1;
        assert(r@ =~= a@ + b@.take(j as int));
    }
    assert(b@.take(b@.len() as int) =~= b@);
    r
}

/// The index of the token equal to `t`, if there is one.
fn find_token(tokens: &Vec<Vec<u8>>, t: &[u8]) -> (r: Option<usize>)
    ensures
        match r {
            Some(i) => i < tokens@.len() && tokens@[i as int]@ == t@,
            None => !views(tokens@).contains(t@),
        },
{
    let mut i: usize = 0;
    while i < tokens.len()
        invariant
            0 <= i <= tokens@.len(),
            forall|k: int| 0 <= k < i ==> tokens@[k]@ != t@,
        decreases tokens@.len() - i,
    {
        if bytes_eq(tokens[i].as_slice(), t) {
            return Some(i);
        }
        i = i + 1;
    }
    proof {
        if views(tokens@).contains(t@) {
            let k = choose|k: int| 0 <= k < views(tokens@).len() && views(tokens@)[k] == t@;
            assert(tokens@[k]@ == t@);
        }
    }
    None
}

/// `merge_pair` on vectors.
fn merge_pair_exec(s: &Vec<Vec<u8>>, a: &[u8], b: &[u8]) -> (r: Vec<Vec<u8>>)
    ensures
        views(r@) == merge_pair(views(s@), a@, b@),
{
    let ghost whole = views(s@);
    let mut out: Vec<Vec<u8>> = Vec::new();
    let mut i: usize = 0;
    while i < s.len()
        invariant
            0 <= i <= s@.len(),
            whole == views(s@),
            views(out@) + merge_pair(whole.skip(i as int), a@, b@) == merge_pair(whole, a@, b@),
        decreases s@.len() - i,
    {
        let ghost rest = whole.skip(i as int);
        if i + 1 < s.len() && bytes_eq(s[i].as_slice(), a) && bytes_eq(s[i + 1].as_slice(), b) {
            let joined = concat(a, b);
            proof {
                assert(rest.skip(2) =~= whole.skip(i + 2));
                assert(views(out@.push(joined)) =~= views(out@) + seq![a@ + b@]);
            }
            out.push(joined);
            i = i + 2;
        } else {
            let copy = concat(s[i].as_slice(), &[]);
            proof {
                assert(copy@ =~= s@[i as int]@);
                assert(rest.skip(1) =~= whole.skip(i + 1));
                assert(views(out@.push(copy)) =~= views(out@) + seq![rest[0]]);
                if rest.len() < 2 {
                    assert(merge_pair(rest, a@, b@) == rest);
                    assert(rest =~= seq![rest[0]]);
                    assert(whole.skip(i + 1) =~= Seq::<Seq<u8>>::empty());
                    assert(merge_pair(whole.skip(i + 1), a@, b@) =~= Seq::<Seq<u8>>::empty());
                }
            }
            out.push(copy);
            i = i + 1;
        }
    }
    proof {
        assert(whole.skip(i as int) =~= Seq::<Seq<u8>>::empty());
        assert(views(out@) + Seq::<Seq<u8>>::empty() =~= views(out@));
    }
    out
}


/// Each byte of `bytes` as a token of its own.
fn byte_tokens(bytes: &[u8]) -> (r: Vec<Vec<u8>>)
    ensures
        views(r@) == singletons(bytes@),
{
    let mut r: Vec<Vec<u8>> = Vec::new();
    let mut i: usize = 0;
    while i < bytes.len()
        invariant
            0 <= i <= bytes@.len(),
            views(r@) == singletons(bytes@.take(i as int)),
        decreases bytes@.len() - i,
    {
        let one: Vec<u8> = vec![bytes[i]];
        proof {
            assert(one@ =~= seq![bytes@[i as int]]);
            assert(views(r@.push(one)) =~= views(r@).push(one@));
            assert(singletons(bytes@.take(i + 1)) =~= singletons(bytes@.take(i as int)).push(
                seq![bytes@[i as int]],
            ));
        }
        r.push(one);
        i = i + 1;
    }
    assert(bytes@.take(bytes@.len() as int) =~= bytes@);
    r
}

/// The unknown token's bytes.
fn unknown_token() -> (r: Vec<u8>)
    ensures
        r@ == unk_bytes(),
{
    let r: Vec<u8> = vec![60u8, 117u8, 110u8, 107u8, 62u8];
    assert(r@ =~= unk_bytes());
    r
}

/// A trainable byte-level BPE codec.
pub struct ByteLevelBPE {
    /// Token bytes, indexed by id.
    tokens: Vec<Vec<u8>>,
    /// Merge rules, in the order in which training found them.
    merges: Vec<(Vec<u8>, Vec<u8>)>,
}

impl View for ByteLevelBPE {
    type V = BpeModel;

    closed spec fn view(&self) -> BpeModel {
        BpeModel {
            tokens: views(self.tokens@),
            merges: self.merges@.map_values(|p: (Vec<u8>, Vec<u8>)| (p.0@, p.1@)),
        }
    }
}

impl ByteLevelBPE {
    /// A codec whose vocabulary holds only the unknown token, with id 0.
    pub fn new() -> (r: Self)
        ensures
            r@.wf(),
            r@.tokens == seq![unk_bytes()],
            r@.merges.len() == 0,
    {
        let mut tokens: Vec<Vec<u8>> = Vec::new();
        tokens.push(unknown_token());
        let r = ByteLevelBPE { tokens, merges: Vec::new() };
        assert(r@.tokens =~= seq![unk_bytes()]);
        r
    }

    /// The vocabulary as (token, id) pairs, in order of id.
    pub fn vocab(&self) -> (r: Vec<(Vec<u8>, u32)>)
        requires
            self@.wf(),
        ensures
            r@.len() == self@.tokens.len(),
            forall|i: int|
                0 <= i < r@.len() ==> (#[trigger] r@[i]).0@ == self@.tokens[i] && r@[i].1 == i,
    {
        let mut r: Vec<(Vec<u8>, u32)> = Vec::new();
        let mut i: usize = 0;
        while i < self.tokens.len()
            invariant
                self@.wf(),
                0 <= i <= self.tokens@.len(),
                r@.len() == i,
                forall|k: int| 0 <= k < i ==> (#[trigger] r@[k]).0@ == self@.tokens[k] && r@[k].1 == k,
            decreases self.tokens@.len() - i,
        {
            let t = concat(self.tokens[i].as_slice(), &[]);
            assert(t@ =~= self@.tokens[i as int]);
            r.push((t, i as u32));
            i = i + 1;
        }
        r
    }

    /// The ids of `text`: its bytes as one-byte tokens, the merge rules
    /// applied in training order, each token then mapped to its id (the
    /// unknown id where the vocabulary lacks it).
    pub fn encode(&self, text: &str) -> (r: Vec<u32>)
        requires
            self@.wf(),
        ensures
            r@ == encode_bytes(self@, encode_utf8(text@)),
    {
        let bytes = text.as_bytes();
        let ghost model = self@;
        let mut toks = byte_tokens(bytes);
        let mut k: usize = 0;
        while k < self.merges.len()
            invariant
                model == self@,
                0 <= k <= self.merges@.len(),
                views(toks@) == apply_merges(model.merges.take(k as int), singletons(bytes@)),
            decreases self.merges@.len() - k,
        {
            toks = merge_pair_exec(&toks, self.merges[k].0.as_slice(), self.merges[k].1.as_slice());
            proof {
                assert(model.merges.take(k + 1).drop_last() =~= model.merges.take(k as int));
            }
            k = k + 1;
        }
        assert(model.merges.take(model.merges.len() as int) =~= model.merges);
        let ghost segs = views(toks@);
        let mut ids: Vec<u32> = Vec::new();
        let mut j: usize = 0;
        while j < toks.len()
            invariant
                model == self@,
                model.wf(),
                segs == views(toks@),
                segs == segment(model, bytes@),
                0 <= j <= toks@.len(),
                ids@ == segs.take(j as int).map_values(|t: Seq<u8>| id_of(model.tokens, t) as u32),
            decreases toks@.len() - j,
        {
            let id: u32 = match find_token(&self.tokens, toks[j].as_slice()) {
                Some(p) => {
                    proof {
                        let q = id_of(model.tokens, segs[j as int]);
                        assert(model.tokens[p as int] == segs[j as int]);
                        assert(model.tokens.contains(segs[j as int]));
                        assert(model.tokens[q] == segs[j as int]);
                    }
                    p as u32
                },
                None => UNK_ID,
            };
            ids.push(id);
            j = j + 1;
            assert(ids@ =~= segs.take(j as int).map_values(|t: Seq<u8>| id_of(model.tokens, t) as u32));
        }
        assert(segs.take(segs.len() as int) =~= segs);
        ids
    }

    /// The bytes that `ids` stand for, concatenated; an id with no token
    /// stands for the unknown token.
    pub fn decode_to_bytes(&self, ids: &[u32]) -> (r: Vec<u8>)
        requires
            self@.wf(),
        ensures
            r@ == decode_bytes(self@, ids@),
    {
        let ghost model = self@;
        let ghost parts = ids@.map_values(|id: u32| token_of(model.tokens, id as int));
        let mut out: Vec<u8> = Vec::new();
        let mut i: usize = 0;
        while i < ids.len()
            invariant
                model == self@,
                parts == ids@.map_values(|id: u32| token_of(model.tokens, id as int)),
                0 <= i <= ids@.len(),
                out@ == parts.take(i as int).flatten(),
            decreases ids@.len() - i,
        {
            let id = ids[i];
            let piece = if (id as usize) < self.tokens.len() {
                concat(self.tokens[id as usize].as_slice(), &[])
            } else {
                unknown_token()
            };
            proof {
                assert(piece@ == parts[i as int]);
                assert(parts.take(i + 1) =~= parts.take(i as int).push(parts[i as int]));
                parts.take(i as int).lemma_flatten_push(parts[i as int]);
            }
            out = concat(out.as_slice(), piece.as_slice());
            i = i + 1;
        }
        assert(parts.take(ids@.len() as int) =~= parts);
        out
    }

    /// The text that `ids` stand for: their bytes, decoded as UTF-8 with
    /// each ill-formed run replaced by U+FFFD. It never fails.
    pub fn decode(&self, ids: &[u32]) -> (r: String)
        requires
            self@.wf(),
        ensures
            r@ == lossy_utf8(decode_bytes(self@, ids@)),
            valid_utf8(decode_bytes(self@, ids@)) ==> r@ == decode_utf8(decode_bytes(self@, ids@)),
    {
        let bytes = self.decode_to_bytes(ids);
        utf8_lossy(bytes.as_slice())
    }
}


/// How many times the adjacent pair `(a, b)` occurs in `s`, overlapping
/// occurrences included.
pub open spec fn pair_count(s: Seq<Seq<u8>>, a: Seq<u8>, b: Seq<u8>) -> nat
    decreases s.len(),
{
    if s.len() < 2 {
        0
    } else {
        pair_count(s.drop_last(), a, b) + if s[s.len() - 2] == a && s[s.len() - 1] == b {
            1nat
        } else {
            0nat
        }
    }
}

/// The count of the pair that starts at position `i` of `s`.
pub open spec fn count_at(s: Seq<Seq<u8>>, i: int) -> nat {
    pair_count(s, s[i], s[i + 1])
}

/// Whether merging the pair at position `i` of `s` gives a token that the
/// vocabulary lacks.
pub open spec fn fresh_at(tokens: Seq<Seq<u8>>, s: Seq<Seq<u8>>, i: int) -> bool {
    0 <= i < s.len() - 1 && !tokens.contains(s[i] + s[i + 1])
}

/// Whether position `i` holds the pair that training merges next: of the
/// pairs whose merge is new to the vocabulary, the most frequent, and of
/// those the one that occurs first.
pub open spec fn is_best_pair(tokens: Seq<Seq<u8>>, s: Seq<Seq<u8>>, i: int) -> bool {
    &&& fresh_at(tokens, s, i)
    &&& forall|j: int|
        #![trigger fresh_at(tokens, s, j)]
        fresh_at(tokens, s, j) ==> count_at(s, j) < count_at(s, i) || (count_at(s, j) == count_at(
            s,
            i,
        ) && i <= j)
}

/// The position of the pair that training merges next, if any pair's merge
/// is new to the vocabulary.
pub open spec fn best_pair_index(tokens: Seq<Seq<u8>>, s: Seq<Seq<u8>>) -> Option<int> {
    if exists|i: int| is_best_pair(tokens, s, i) {
        Some(choose|i: int| is_best_pair(tokens, s, i))
    } else {
        None
    }
}

/// Adds to `tokens`, in order of first occurrence, each byte of `b` that is
/// not yet a one-byte token, while ids remain.
pub open spec fn register_bytes(tokens: Seq<Seq<u8>>, b: Seq<u8>) -> Seq<Seq<u8>>
    decreases b.len(),
{
    if b.len() == 0 {
        tokens
    } else {
        let t = register_bytes(tokens, b.drop_last());
        let x = seq![b.last()];
        if t.contains(x) || t.len() >= u32::MAX {
            t
        } else {
            t.push(x)
        }
    }
}

/// The merge phase of training: while the vocabulary is smaller than `n`
/// (and ids remain), merge the best pair of `s` into a new token.
pub open spec fn merge_loop(m: BpeModel, s: Seq<Seq<u8>>, n: nat) -> BpeModel
    decreases n - m.tokens.len(),
{
    if m.tokens.len() >= n || m.tokens.len() >= u32::MAX {
        m
    } else {
        match best_pair_index(m.tokens, s) {
            None => m,
            Some(i) => merge_loop(
                BpeModel {
                    tokens: m.tokens.push(s[i] + s[i + 1]),
                    merges: m.merges.push((s[i], s[i + 1])),
                },
                merge_pair(s, s[i], s[i + 1]),
                n,
            ),
        }
    }
}

/// What training on `bytes` towards `n` tokens makes of `m`.
pub open spec fn train_model(m: BpeModel, bytes: Seq<u8>, n: nat) -> BpeModel {
    merge_loop(
        BpeModel { tokens: register_bytes(m.tokens, bytes), merges: m.merges },
        singletons(bytes),
        n,
    )
}

proof fn lemma_best_pair_unique(tokens: Seq<Seq<u8>>, s: Seq<Seq<u8>>, i: int, j: int)
    requires
        is_best_pair(tokens, s, i),
        is_best_pair(tokens, s, j),
    ensures
        i == j,
{
    assert(fresh_at(tokens, s, j));
    assert(fresh_at(tokens, s, i));
}

/// `pair_count` on vectors.
fn count_pair(s: &Vec<Vec<u8>>, a: &[u8], b: &[u8]) -> (r: usize)
    ensures
        r == pair_count(views(s@), a@, b@),
{
    let ghost whole = views(s@);
    let mut count: usize = 0;
    let mut k: usize = 1;
    while k < s.len()
        invariant
            whole == views(s@),
            1 <= k,
            k <= s@.len() || s@.len() == 0,
            s@.len() > 0 ==> count == pair_count(whole.take(k as int), a@, b@),
            s@.len() == 0 ==> count == 0,
            count <= k,
        decreases s@.len() - k,
    {
        proof {
            assert(whole.take(k + 1).drop_last() =~= whole.take(k as int));
        }
        if bytes_eq(s[k - 1].as_slice(), a) && bytes_eq(s[k].as_slice(), b) {
            count = count + 1;
        }
        k = k + 1;
    }
    proof {
        if s@.len() > 0 {
            assert(whole.take(s@.len() as int) =~= whole);
        }
    }
    count
}

/// The position of the pair that training merges next (see `is_best_pair`).
fn best_pair(tokens: &Vec<Vec<u8>>, s: &Vec<Vec<u8>>) -> (r: Option<usize>)
    ensures
        match r {
            Some(i) => best_pair_index(views(tokens@), views(s@)) == Some(i as int) && i + 1
                < s@.len(),
            None => best_pair_index(views(tokens@), views(s@)) is None,
        },
{
    let ghost toks = views(tokens@);
    let ghost ss = views(s@);
    let mut best: Option<usize> = None;
    let mut best_count: usize = 0;
    let mut i: usize = 0;
    while i < s.len() && i + 1 < s.len()
        invariant
            toks == views(tokens@),
            ss == views(s@),
            0 <= i,
            i + 1 <= s@.len() || i == 0,
            match best {
                None => forall|j: int| 0 <= j < i ==> !#[trigger] fresh_at(toks, ss, j),
                Some(bi) => {
                    &&& bi < i
                    &&& fresh_at(toks, ss, bi as int)
                    &&& best_count == count_at(ss, bi as int)
                    &&& forall|j: int|
                        #![trigger fresh_at(toks, ss, j)]
                        0 <= j < i && fresh_at(toks, ss, j) ==> count_at(ss, j) < best_count || (
                        count_at(ss, j) == best_count && bi <= j)
                },
            },
        decreases s@.len() - i,
    {
        let c = count_pair(s, s[i].as_slice(), s[i + 1].as_slice());
        if best.is_none() || c > best_count {
            let joined = concat(s[i].as_slice(), s[i + 1].as_slice());
            let found = find_token(tokens, joined.as_slice());
            proof {
                if let Some(p) = found {
                    assert(toks[p as int] == joined@);
                    assert(toks.contains(joined@));
                }
            }
            if found.is_none() {
                best = Some(i);
                best_count = c;
            }
        }
        i = i + 1;
    }
    proof {
        match best {
            None => {
                assert forall|j: int| !is_best_pair(toks, ss, j) by {
                    if 0 <= j < ss.len() - 1 {
                        assert(!fresh_at(toks, ss, j));
                    }
                }
            },
            Some(bi) => {
                assert forall|j: int| #![trigger fresh_at(toks, ss, j)] fresh_at(toks, ss, j) implies count_at(ss, j) < count_at(ss, bi as int) || (count_at(ss, j) == count_at(ss, bi as int) && bi <= j) by {
                    assert(j < i);
                }
                assert(is_best_pair(toks, ss, bi as int));
                let c = choose|k: int| is_best_pair(toks, ss, k);
                lemma_best_pair_unique(toks, ss, bi as int, c);
            },
        }
    }
    best
}


impl ByteLevelBPE {
    /// Appends `t` to the vocabulary, under the next id.
    fn add_token(&mut self, t: Vec<u8>)
        requires
            old(self)@.wf(),
            !old(self)@.tokens.contains(t@),
            old(self)@.tokens.len() < u32::MAX,
        ensures
            final(self)@.wf(),
            final(self)@ == (BpeModel { tokens: old(self)@.tokens.push(t@), merges: old(self)@.merges }),
    {
        let ghost m = self@;
        proof {
            assert(views(self.tokens@.push(t)) =~= m.tokens.push(t@));
        }
        self.tokens.push(t);
        proof {
            let m2 = self@;
            assert forall|k: int| 0 <= k < m2.merges.len() implies m2.tokens.contains(
                #[trigger] m2.merges[k].0 + m2.merges[k].1,
            ) by {
                let x = m.merges[k].0 + m.merges[k].1;
                assert(m.tokens.contains(x));
                let w = choose|w: int| 0 <= w < m.tokens.len() && m.tokens[w] == x;
                assert(m2.tokens[w] == x);
            }
        }
    }

    /// Records the merge rule `(a, b)` and appends its token `a + b` to the
    /// vocabulary.
    fn add_merge(&mut self, a: Vec<u8>, b: Vec<u8>)
        requires
            old(self)@.wf(),
            !old(self)@.tokens.contains(a@ + b@),
            old(self)@.tokens.len() < u32::MAX,
        ensures
            final(self)@.wf(),
            final(self)@ == (BpeModel {
                tokens: old(self)@.tokens.push(a@ + b@),
                merges: old(self)@.merges.push((a@, b@)),
            }),
    {
        let joined = concat(a.as_slice(), b.as_slice());
        self.add_token(joined);
        let ghost m = self@;
        proof {
            assert(self.merges@.push((a, b)).map_values(|p: (Vec<u8>, Vec<u8>)| (p.0@, p.1@))
                =~= m.merges.push((a@, b@)));
        }
        self.merges.push((a, b));
        proof {
            let m2 = self@;
            assert forall|k: int| 0 <= k < m2.merges.len() implies m2.tokens.contains(
                #[trigger] m2.merges[k].0 + m2.merges[k].1,
            ) by {
                if k < m.merges.len() {
                    assert(m.merges[k] == m2.merges[k]);
                } else {
                    assert(m2.tokens[m2.tokens.len() - 1] == a@ + b@);
                }
            }
        }
    }

    /// Trains on `text` towards a vocabulary of `vocab_size` tokens.
    ///
    /// Each byte of the text that is not yet a one-byte token is added first,
    /// in order of first occurrence. Then, while the vocabulary is smaller
    /// than `vocab_size`, the adjacent pair of the text's current tokens
    /// whose merge is not yet a token and that occurs most often (the first
    /// such pair on a tie) is merged: the merged token gets the next id, the
    /// pair is recorded as a merge rule, and every non-overlapping
    /// occurrence of the pair is replaced. Training stops early when no pair
    /// gives a new token. Existing ids and rules are kept.
    pub fn train(&mut self, text: &str, vocab_size: usize)
        requires
            old(self)@.wf(),
        ensures
            final(self)@.wf(),
            final(self)@ == train_model(old(self)@, encode_utf8(text@), vocab_size as nat),
    {
        let bytes = text.as_bytes();
        let ghost m0 = self@;
        let mut i: usize = 0;
        while i < bytes.len()
            invariant
                0 <= i <= bytes@.len(),
                self@.wf(),
                self@.merges == m0.merges,
                self@.tokens == register_bytes(m0.tokens, bytes@.take(i as int)),
            decreases bytes@.len() - i,
        {
            proof {
                assert(bytes@.take(i + 1).drop_last() =~= bytes@.take(i as int));
            }
            let one: Vec<u8> = vec![bytes[i]];
            assert(one@ =~= seq![bytes@[i as int]]);
            let found = find_token(&self.tokens, one.as_slice());
            proof {
                if let Some(p) = found {
                    assert(self@.tokens[p as int] == one@);
                }
            }
            if found.is_none() && self.tokens.len() < u32::MAX as usize {
                self.add_token(one);
            }
            i = i + 1;
        }
        assert(bytes@.take(bytes@.len() as int) =~= bytes@);
        let mut seq = byte_tokens(bytes);
        assert(self@ == (BpeModel { tokens: register_bytes(m0.tokens, bytes@), merges: m0.merges }));
        let ghost target = merge_loop(self@, views(seq@), vocab_size as nat);
        assert(bytes@ == encode_utf8(text@));
        assert(target == train_model(m0, encode_utf8(text@), vocab_size as nat));
        loop
            invariant
                self@.wf(),
                merge_loop(self@, views(seq@), vocab_size as nat) == target,
            ensures
                self@.wf(),
                self@ == target,
            decreases vocab_size - self.tokens@.len(),
        {
            if self.tokens.len() >= vocab_size || self.tokens.len() >= u32::MAX as usize {
                assert(merge_loop(self@, views(seq@), vocab_size as nat) == self@);
                break;
            }
            match best_pair(&self.tokens, &seq) {
                None => {
                    assert(merge_loop(self@, views(seq@), vocab_size as nat) == self@);
                    break;
                },
                Some(i) => {
                    let ghost m = self@;
                    let ghost ss = views(seq@);
                    assert(is_best_pair(m.tokens, ss, i as int));
                    let a = concat(seq[i].as_slice(), &[]);
                    let b = concat(seq[i + 1].as_slice(), &[]);
                    assert(a@ == ss[i as int]);
                    assert(b@ == ss[i + 1]);
                    let next = merge_pair_exec(&seq, a.as_slice(), b.as_slice());
                    self.add_merge(a, b);
                    seq = next;
                },
            }
        }
    }
}


proof fn lemma_merge_pair_flatten(s: Seq<Seq<u8>>, a: Seq<u8>, b: Seq<u8>)
    ensures
        merge_pair(s, a, b).flatten() == s.flatten(),
    decreases s.len(),
{
    if s.len() < 2 {
    } else if s[0] == a && s[1] == b {
        lemma_merge_pair_flatten(s.skip(2), a, b);
        lemma_flatten_concat(seq![a + b], merge_pair(s.skip(2), a, b));
        assert(seq![a + b].flatten() == a + b) by {
            seq![a + b].lemma_flatten_one_element();
        }
        assert(s.flatten() == s[0] + s.skip(1).flatten());
        assert(s.skip(1).flatten() == s[1] + s.skip(2).flatten()) by {
            assert(s.skip(1).drop_first() =~= s.skip(2));
        }
        assert(s.flatten() =~= (a + b) + s.skip(2).flatten());
    } else {
        lemma_merge_pair_flatten(s.skip(1), a, b);
        lemma_flatten_concat(seq![s[0]], merge_pair(s.skip(1), a, b));
        assert(seq![s[0]].flatten() == s[0]) by {
            seq![s[0]].lemma_flatten_one_element();
        }
        assert(s.drop_first() =~= s.skip(1));
    }
}

proof fn lemma_apply_merges_flatten(merges: Seq<(Seq<u8>, Seq<u8>)>, s: Seq<Seq<u8>>)
    ensures
        apply_merges(merges, s).flatten() == s.flatten(),
    decreases merges.len(),
{
    if merges.len() > 0 {
        lemma_apply_merges_flatten(merges.drop_last(), s);
        let rule = merges.last();
        lemma_merge_pair_flatten(apply_merges(merges.drop_last(), s), rule.0, rule.1);
    }
}

proof fn lemma_singletons_flatten(b: Seq<u8>)
    ensures
        singletons(b).flatten() == b,
    decreases b.len(),
{
    if b.len() > 0 {
        lemma_singletons_flatten(b.drop_first());
        assert(singletons(b).drop_first() =~= singletons(b.drop_first()));
        assert(b =~= seq![b[0]] + b.drop_first());
    }
}

proof fn lemma_merge_pair_within(s: Seq<Seq<u8>>, a: Seq<u8>, b: Seq<u8>, tokens: Seq<Seq<u8>>)
    requires
        forall|k: int| 0 <= k < s.len() ==> tokens.contains(#[trigger] s[k]),
        tokens.contains(a + b),
    ensures
        forall|k: int|
            0 <= k < merge_pair(s, a, b).len() ==> tokens.contains(#[trigger] merge_pair(s, a, b)[k]),
    decreases s.len(),
{
    if s.len() < 2 {
    } else if s[0] == a && s[1] == b {
        lemma_merge_pair_within(s.skip(2), a, b, tokens);
        let r = merge_pair(s, a, b);
        assert forall|k: int| 0 <= k < r.len() implies tokens.contains(#[trigger] r[k]) by {
            if k > 0 {
                assert(r[k] == merge_pair(s.skip(2), a, b)[k - 1]);
            }
        }
    } else {
        lemma_merge_pair_within(s.skip(1), a, b, tokens);
        let r = merge_pair(s, a, b);
        assert forall|k: int| 0 <= k < r.len() implies tokens.contains(#[trigger] r[k]) by {
            if k > 0 {
                assert(r[k] == merge_pair(s.skip(1), a, b)[k - 1]);
            } else {
                assert(r[0] == s[0]);
            }
        }
    }
}

proof fn lemma_apply_merges_within(
    merges: Seq<(Seq<u8>, Seq<u8>)>,
    s: Seq<Seq<u8>>,
    tokens: Seq<Seq<u8>>,
)
    requires
        forall|k: int| 0 <= k < s.len() ==> tokens.contains(#[trigger] s[k]),
        forall|k: int|
            0 <= k < merges.len() ==> tokens.contains(#[trigger] merges[k].0 + merges[k].1),
    ensures
        forall|k: int|
            0 <= k < apply_merges(merges, s).len() ==> tokens.contains(
                #[trigger] apply_merges(merges, s)[k],
            ),
    decreases merges.len(),
{
    if merges.len() > 0 {
        let rest = merges.drop_last();
        assert forall|k: int| 0 <= k < rest.len() implies tokens.contains(
            #[trigger] rest[k].0 + rest[k].1,
        ) by {
            assert(rest[k] == merges[k]);
        }
        lemma_apply_merges_within(rest, s, tokens);
        let rule = merges.last();
        assert(tokens.contains(merges[merges.len() - 1].0 + merges[merges.len() - 1].1));
        lemma_merge_pair_within(apply_merges(rest, s), rule.0, rule.1, tokens);
    }
}

/// Decoding what `encode_bytes` gives back the bytes, whenever each byte is
/// a one-byte token of the vocabulary.
proof fn lemma_decode_encode_bytes(m: BpeModel, bytes: Seq<u8>)
    requires
        m.wf(),
        forall|i: int| 0 <= i < bytes.len() ==> m.tokens.contains(seq![#[trigger] bytes[i]]),
    ensures
        decode_bytes(m, encode_bytes(m, bytes)) == bytes,
{
    let s0 = singletons(bytes);
    assert forall|k: int| 0 <= k < s0.len() implies m.tokens.contains(#[trigger] s0[k]) by {
        assert(s0[k] == seq![bytes[k]]);
    }
    lemma_apply_merges_within(m.merges, s0, m.tokens);
    let segs = segment(m, bytes);
    let ids = encode_bytes(m, bytes);
    let parts = ids.map_values(|id: u32| token_of(m.tokens, id as int));
    assert forall|k: int| 0 <= k < segs.len() implies parts[k] == segs[k] by {
        let t = segs[k];
        assert(m.tokens.contains(t));
        let i = id_of(m.tokens, t);
        assert(0 <= i < m.tokens.len() && m.tokens[i] == t);
        assert(ids[k] == i as u32);
    }
    assert(parts =~= segs);
    lemma_apply_merges_flatten(m.merges, s0);
    lemma_singletons_flatten(bytes);
}

/// Round trip: when every byte of `text` is a one-byte token, the ids that
/// encoding gives decode to valid UTF-8 that spells `text` again, and
/// encoding that decoded text gives the same ids once more.
pub proof fn lemma_round_trip(m: BpeModel, text: Seq<char>)
    requires
        m.wf(),
        forall|i: int|
            0 <= i < encode_utf8(text).len() ==> m.tokens.contains(
                seq![#[trigger] encode_utf8(text)[i]],
            ),
    ensures
        valid_utf8(decode_bytes(m, encode_bytes(m, encode_utf8(text)))),
        decode_utf8(decode_bytes(m, encode_bytes(m, encode_utf8(text)))) == text,
        encode_bytes(m, encode_utf8(decode_utf8(decode_bytes(m, encode_bytes(m, encode_utf8(text))))))
            == encode_bytes(m, encode_utf8(text)),
{
    lemma_decode_encode_bytes(m, encode_utf8(text));
    encode_utf8_valid_utf8(text);
    encode_utf8_decode_utf8(text);
}

/// Unknown fallback: nothing encodes to nothing, a token that the
/// vocabulary lacks gets id 0, and an id without a token decodes to the
/// unknown token's bytes.
pub proof fn lemma_unknown_fallback(m: BpeModel, t: Seq<u8>, id: u32)
    ensures
        encode_bytes(m, Seq::<u8>::empty()) == Seq::<u32>::empty(),
        !m.tokens.contains(t) ==> id_of(m.tokens, t) == UNK_ID,
        id >= m.tokens.len() ==> decode_bytes(m, seq![id]) == unk_bytes(),
{
    assert(singletons(Seq::<u8>::empty()) =~= Seq::<Seq<u8>>::empty());
    lemma_apply_merges_empty(m.merges);
    assert(encode_bytes(m, Seq::<u8>::empty()) =~= Seq::<u32>::empty());
    let parts = seq![id].map_values(|i: u32| token_of(m.tokens, i as int));
    parts.lemma_flatten_one_element();
}

proof fn lemma_apply_merges_empty(merges: Seq<(Seq<u8>, Seq<u8>)>)
    ensures
        apply_merges(merges, Seq::<Seq<u8>>::empty()) == Seq::<Seq<u8>>::empty(),
    decreases merges.len(),
{
    if merges.len() > 0 {
        lemma_apply_merges_empty(merges.drop_last());
    }
}

proof fn lemma_register_bytes_grows(tokens: Seq<Seq<u8>>, b: Seq<u8>)
    ensures
        tokens.len() <= register_bytes(tokens, b).len(),
        register_bytes(tokens, b).take(tokens.len() as int) == tokens,
    decreases b.len(),
{
    if b.len() > 0 {
        lemma_register_bytes_grows(tokens, b.drop_last());
        let t = register_bytes(tokens, b.drop_last());
        assert(t.push(seq![b.last()]).take(tokens.len() as int) =~= t.take(tokens.len() as int));
    }
}

proof fn lemma_merge_loop_grows(m: BpeModel, s: Seq<Seq<u8>>, n: nat)
    ensures
        m.tokens.len() <= merge_loop(m, s, n).tokens.len(),
        m.merges.len() <= merge_loop(m, s, n).merges.len(),
        merge_loop(m, s, n).tokens.take(m.tokens.len() as int) == m.tokens,
        merge_loop(m, s, n).merges.take(m.merges.len() as int) == m.merges,
        merge_loop(m, s, n).tokens.len() <= m.tokens.len() || merge_loop(m, s, n).tokens.len() <= n,
    decreases n - m.tokens.len(),
{
    if m.tokens.len() >= n || m.tokens.len() >= u32::MAX {
        assert(m.tokens.take(m.tokens.len() as int) =~= m.tokens);
        assert(m.merges.take(m.merges.len() as int) =~= m.merges);
    } else {
        match best_pair_index(m.tokens, s) {
            None => {
                assert(m.tokens.take(m.tokens.len() as int) =~= m.tokens);
                assert(m.merges.take(m.merges.len() as int) =~= m.merges);
            },
            Some(i) => {
                let m2 = BpeModel {
                    tokens: m.tokens.push(s[i] + s[i + 1]),
                    merges: m.merges.push((s[i], s[i + 1])),
                };
                let s2 = merge_pair(s, s[i], s[i + 1]);
                lemma_merge_loop_grows(m2, s2, n);
                let r = merge_loop(m2, s2, n);
                assert(r.tokens.take(m.tokens.len() as int) =~= r.tokens.take(
                    m2.tokens.len() as int,
                ).take(m.tokens.len() as int));
                assert(m2.tokens.take(m.tokens.len() as int) =~= m.tokens);
                assert(r.merges.take(m.merges.len() as int) =~= r.merges.take(
                    m2.merges.len() as int,
                ).take(m.merges.len() as int));
                assert(m2.merges.take(m.merges.len() as int) =~= m.merges);
            },
        }
    }
}

/// Vocabulary growth: training keeps every token under its id and every
/// merge rule in its place, and leaves at most `n` tokens whenever the
/// text's new bytes alone do not take the vocabulary past `n`.
pub proof fn lemma_vocab_growth(m: BpeModel, bytes: Seq<u8>, n: nat)
    ensures
        m.tokens.len() <= train_model(m, bytes, n).tokens.len(),
        train_model(m, bytes, n).tokens.take(m.tokens.len() as int) == m.tokens,
        train_model(m, bytes, n).merges.take(m.merges.len() as int) == m.merges,
        register_bytes(m.tokens, bytes).len() <= n ==> train_model(m, bytes, n).tokens.len() <= n,
{
    lemma_register_bytes_grows(m.tokens, bytes);
    let m1 = BpeModel { tokens: register_bytes(m.tokens, bytes), merges: m.merges };
    lemma_merge_loop_grows(m1, singletons(bytes), n);
    let r = train_model(m, bytes, n);
    assert(r.tokens.take(m.tokens.len() as int) =~= r.tokens.take(m1.tokens.len() as int).take(
        m.tokens.len() as int,
    ));
}

/// Repeated training: a second round of training, on any text and towards
/// any size, never leaves fewer tokens than the first round did.
pub proof fn lemma_vocab_growth_repeated(m: BpeModel, b1: Seq<u8>, n1: nat, b2: Seq<u8>, n2: nat)
    ensures
        train_model(m, b1, n1).tokens.len() <= train_model(train_model(m, b1, n1), b2, n2).tokens.len(),
{
    lemma_vocab_growth(train_model(m, b1, n1), b2, n2);
}

} // verus!
