//! Greedy longest-match segmentation over a scored vocabulary, with
//! sentence and word-break markers.

use vstd::prelude::*;
use crate::text::{
    isize_of, parse_isize, split_fields, whitespace_fields,
    chars_of, lower_of, lowercase, sentences_of, string_from_chars, unicode_sentences_of,
    unicode_words_of, words_of,
};

verus! {

broadcast use vstd::seq_lib::group_seq_properties;

/// The character that marks the start of a word.
pub const WORD_BREAK_CHAR: char = '\u{2581}';

/// The characters of the sentence-start marker, `<s>`.
pub open spec fn start_marker() -> Seq<char> {
    seq!['<', 's', '>']
}

/// The characters of the sentence-end marker, `</s>`.
pub open spec fn end_marker() -> Seq<char> {
    seq!['<', '/', 's', '>']
}

/// The characters of the unknown-token placeholder, `<unk>`.
pub open spec fn unknown_marker() -> Seq<char> {
    seq!['<', 'u', 'n', 'k', '>']
}

/// The scores that a list of (token, score) entries gives: a later entry
/// for a token replaces an earlier one.
pub open spec fn scores_of(e: Seq<(Seq<char>, isize)>) -> Map<Seq<char>, isize>
    decreases e.len(),
{
    if e.len() == 0 {
        Map::empty()
    } else {
        scores_of(e.drop_last()).insert(e.last().0, e.last().1)
    }
}

/// Whether `w[s..e]` is the match that segmentation of `w` picks: a
/// vocabulary token, no longer substring is one, and among the tokens of
/// its length it has the highest score, the rightmost on a tie.
pub open spec fn is_best_match(v: Map<Seq<char>, isize>, w: Seq<char>, s: int, e: int) -> bool {
    &&& 0 <= s < e <= w.len()
    &&& v.contains_key(w.subrange(s, e))
    &&& forall|s2: int, e2: int|
        0 <= s2 < e2 <= w.len() && e2 - s2 > e - s ==> !v.contains_key(
            #[trigger] w.subrange(s2, e2),
        )
    &&& forall|s2: int|
        0 <= s2 && s2 + (e - s) <= w.len() && v.contains_key(
            #[trigger] w.subrange(s2, s2 + (e - s)),
        ) ==> v[w.subrange(s2, s2 + (e - s))] < v[w.subrange(s, e)] || (v[w.subrange(
            s2,
            s2 + (e - s),
        )] == v[w.subrange(s, e)] && s2 <= s)
}

/// The segmentation of `w`: nothing for an empty word; else the best match,
/// with the parts to its left and right segmented in turn; else, when no
/// substring is a token, the unknown placeholder for the whole word.
pub open spec fn segment_word(v: Map<Seq<char>, isize>, w: Seq<char>) -> Seq<Seq<char>>
    decreases w.len(),
{
    if w.len() == 0 {
        Seq::empty()
    } else if exists|p: (int, int)| is_best_match(v, w, p.0, p.1) {
        let p = choose|p: (int, int)| is_best_match(v, w, p.0, p.1);
        segment_word(v, w.subrange(0, p.0)) + seq![w.subrange(p.0, p.1)] + segment_word(
            v,
            w.subrange(p.1, w.len() as int),
        )
    } else {
        seq![unknown_marker()]
    }
}

/// A word with the word-break marker in front.
pub open spec fn marked_word(w: Seq<char>) -> Seq<char> {
    seq![WORD_BREAK_CHAR] + w
}

/// The tokens of one sentence whose words are `words`: the start marker,
/// each word with the word-break marker segmented in turn, the end marker.
pub open spec fn sentence_tokens(v: Map<Seq<char>, isize>, words: Seq<Seq<char>>) -> Seq<
    Seq<char>,
> {
    seq![start_marker()] + words.map_values(|w: Seq<char>| segment_word(v, marked_word(w))).flatten()
        + seq![end_marker()]
}

/// The tokens of one sentence: its Unicode words, lowercased.
pub open spec fn sentence_block(v: Map<Seq<char>, isize>, sentence: Seq<char>) -> Seq<Seq<char>> {
    sentence_tokens(v, unicode_words_of(sentence).map_values(|w: Seq<char>| lower_of(w)))
}

/// The tokens of a text: those of each of its Unicode sentences, in order.
pub open spec fn text_tokens(v: Map<Seq<char>, isize>, text: Seq<char>) -> Seq<Seq<char>> {
    unicode_sentences_of(text).map_values(|s: Seq<char>| sentence_block(v, s)).flatten()
}

/// The views of a vector of strings.
pub open spec fn strs(v: Seq<String>) -> Seq<Seq<char>> {
    v.map_values(|s: String| s@)
}

proof fn lemma_best_match_unique(v: Map<Seq<char>, isize>, w: Seq<char>, p: (int, int), q: (int, int))
    requires
        is_best_match(v, w, p.0, p.1),
        is_best_match(v, w, q.0, q.1),
    ensures
        p == q,
{
    assert(!(q.1 - q.0 > p.1 - p.0)) by {
        if q.1 - q.0 > p.1 - p.0 {
            assert(!v.contains_key(w.subrange(q.0, q.1)));
        }
    }
    assert(!(p.1 - p.0 > q.1 - q.0)) by {
        if p.1 - p.0 > q.1 - q.0 {
            assert(!v.contains_key(w.subrange(p.0, p.1)));
        }
    }
    assert(w.subrange(q.0, q.0 + (p.1 - p.0)) == w.subrange(q.0, q.1));
    assert(w.subrange(p.0, p.0 + (q.1 - q.0)) == w.subrange(p.0, p.1));
}

/// The characters `w[s..e]`.
fn sub_chars(w: &Vec<char>, s: usize, e: usize) -> (r: Vec<char>)
    requires
        s <= e <= w@.len(),
    ensures
        r@ == w@.subrange(s as int, e as int),
{
    let mut r: Vec<char> = Vec::new();
    let mut i: usize = s;
    while i < e
        invariant
            s <= i <= e <= w@.len(),
            r@ == w@.subrange(s as int, i as int),
        decreases e - i,
    {
        r.push(w[i]);
        i = i + 1;
        assert(r@ =~= w@.subrange(s as int, i as int));
    }
    r
}

/// Whether `t` equals `w[s..e]`.
fn chars_match(t: &Vec<char>, w: &Vec<char>, s: usize, e: usize) -> (r: bool)
    requires
        s <= e <= w@.len(),
    ensures
        r == (t@ == w@.subrange(s as int, e as int)),
{
    if t.len() != e - s {
        return false;
    }
    let mut i: usize = 0;
    while i < t.len()
        invariant
            t@.len() == e - s,
            s <= e <= w@.len(),
            0 <= i <= t@.len(),
            forall|k: int| 0 <= k < i ==> t@[k] == w@[s + k],
        decreases t@.len() - i,
    {
        if t[i] != w[s + i] {
            return false;
        }
        i = i + 1;
    }
    assert(t@ =~= w@.subrange(s as int, e as int));
    true
}

/// A greedy longest-match segmenter over a scored vocabulary.
pub struct StandardBPE {
    /// (token, score) entries in the order loaded; a later entry for a token
    /// replaces an earlier one.
    entries: Vec<(Vec<char>, isize)>,
}

impl View for StandardBPE {
    type V = Map<Seq<char>, isize>;

    closed spec fn view(&self) -> Map<Seq<char>, isize> {
        scores_of(self.entries@.map_values(|e: (Vec<char>, isize)| (e.0@, e.1)))
    }
}

impl StandardBPE {
    /// A segmenter with an empty vocabulary.
    pub fn new() -> (r: Self)
        ensures
            r@ == Map::<Seq<char>, isize>::empty(),
    {
        let r = StandardBPE { entries: Vec::new() };
        assert(r.entries@.map_values(|e: (Vec<char>, isize)| (e.0@, e.1)) =~= Seq::<
            (Seq<char>, isize),
        >::empty());
        r
    }

    /// Sets the score of `token`, replacing any score it had.
    pub fn insert(&mut self, token: &str, score: isize)
        ensures
            final(self)@ == old(self)@.insert(token@, score),
    {
        let t = chars_of(token);
        let ghost before = old(self).entries@.map_values(|e: (Vec<char>, isize)| (e.0@, e.1));
        self.entries.push((t, score));
        proof {
            let after = self.entries@.map_values(|e: (Vec<char>, isize)| (e.0@, e.1));
            assert(after.drop_last() =~= before);
        }
    }

    /// The score of `w[s..e]`, if it is a token.
    fn lookup(&self, w: &Vec<char>, s: usize, e: usize) -> (r: Option<isize>)
        requires
            s <= e <= w@.len(),
        ensures
            match r {
                Some(x) => self@.contains_key(w@.subrange(s as int, e as int)) && self@[w@.subrange(
                    s as int,
                    e as int,
                )] == x,
                None => !self@.contains_key(w@.subrange(s as int, e as int)),
            },
    {
        let ghost t = w@.subrange(s as int, e as int);
        let ghost all = self.entries@.map_values(|e: (Vec<char>, isize)| (e.0@, e.1));
        let mut j: usize = self.entries.len();
        while j > 0
            invariant
                j <= self.entries@.len(),
                all == self.entries@.map_values(|e: (Vec<char>, isize)| (e.0@, e.1)),
                s <= e <= w@.len(),
                t == w@.subrange(s as int, e as int),
                scores_of(all).contains_key(t) == scores_of(all.take(j as int)).contains_key(t),
                scores_of(all).contains_key(t) ==> scores_of(all)[t] == scores_of(
                    all.take(j as int),
                )[t],
            decreases j,
        {
            j = j - 1;
            proof {
                assert(all.take(j + 1).drop_last() =~= all.take(j as int));
            }
            if chars_match(&self.entries[j].0, w, s, e) {
                return Some(self.entries[j].1);
            }
        }
        assert(all.take(0) =~= Seq::<(Seq<char>, isize)>::empty());
        None
    }

    /// The best match in `w` (see `is_best_match`), if any substring of `w`
    /// is a token.
    fn best_match(&self, w: &Vec<char>) -> (r: Option<(usize, usize)>)
        ensures
            match r {
                Some(p) => is_best_match(self@, w@, p.0 as int, p.1 as int),
                None => forall|s: int, e: int|
                    0 <= s < e <= w@.len() ==> !self@.contains_key(#[trigger] w@.subrange(s, e)),
            },
    {
        let n = w.len();
        let mut len: usize = n;
        while len > 0
            invariant
                n == w@.len(),
                len <= n,
                forall|s2: int, e2: int|
                    0 <= s2 < e2 <= n && e2 - s2 > len ==> !self@.contains_key(
                        #[trigger] w@.subrange(s2, e2),
                    ),
            decreases len,
        {
            let mut best: Option<(usize, isize)> = None;
            let mut start: usize = 0;
            while start <= n - len
                invariant
                    n == w@.len(),
                    0 < len <= n,
                    start <= n - len + 1,
                    match best {
                        None => forall|s2: int|
                            0 <= s2 < start ==> !self@.contains_key(
                                #[trigger] w@.subrange(s2, s2 + len),
                            ),
                        Some(b) => {
                            &&& b.0 < start
                            &&& self@.contains_key(w@.subrange(b.0 as int, b.0 + len))
                            &&& self@[w@.subrange(b.0 as int, b.0 + len)] == b.1
                            &&& forall|s2: int|
                                0 <= s2 < start && self@.contains_key(
                                    #[trigger] w@.subrange(s2, s2 + len),
                                ) ==> self@[w@.subrange(s2, s2 + len)] < b.1 || (self@[w@.subrange(
                                    s2,
                                    s2 + len,
                                )] == b.1 && s2 <= b.0)
                        },
                    },
                decreases n - len + 1 - start,
            {
                match self.lookup(w, start, start + len) {
                    Some(score) => {
                        let replace = match best {
                            None => true,
                            Some(b) => score >= b.1,
                        };
                        if replace {
                            best = Some((start, score));
                        }
                    },
                    None => {},
                }
                start = start + 1;
            }
            match best {
                Some(b) => {
                    let r = (b.0, b.0 + len);
                    proof {
                        assert forall|s2: int|
                            0 <= s2 && s2 + len <= n && self@.contains_key(
                                #[trigger] w@.subrange(s2, s2 + len),
                            ) implies self@[w@.subrange(s2, s2 + len)] < b.1 || (self@[w@.subrange(
                            s2,
                            s2 + len,
                        )] == b.1 && s2 <= b.0) by {
                            assert(s2 < start);
                        }
                    }
                    return Some(r);
                },
                None => {
                    proof {
                        assert forall|s2: int, e2: int|
                            0 <= s2 < e2 <= n && e2 - s2 > len - 1 implies !self@.contains_key(
                            #[trigger] w@.subrange(s2, e2),
                        ) by {
                            if e2 - s2 == len {
                                assert(s2 < start);
                                assert(w@.subrange(s2, s2 + len) == w@.subrange(s2, e2));
                            }
                        }
                    }
                },
            }
            len = len - 1;
        }
        None
    }
}


/// The string `<s>`.
fn start_token() -> (r: String)
    ensures
        r@ == start_marker(),
{
    let r = "<s>".to_owned();
    proof {
        reveal_strlit("<s>");
        assert(r@ =~= start_marker());
    }
    r
}

/// The string `</s>`.
fn end_token() -> (r: String)
    ensures
        r@ == end_marker(),
{
    let r = "</s>".to_owned();
    proof {
        reveal_strlit("</s>");
        assert(r@ =~= end_marker());
    }
    r
}

/// The string `<unk>`.
fn unknown_token() -> (r: String)
    ensures
        r@ == unknown_marker(),
{
    let r = "<unk>".to_owned();
    proof {
        reveal_strlit("<unk>");
        assert(r@ =~= unknown_marker());
    }
    r
}

impl StandardBPE {
    /// `segment_word` on a vector of characters.
    fn segment_chars(&self, w: &Vec<char>) -> (r: Vec<String>)
        ensures
            strs(r@) == segment_word(self@, w@),
        decreases w@.len(),
    {
        if w.len() == 0 {
            let r: Vec<String> = Vec::new();
            assert(strs(r@) =~= Seq::<Seq<char>>::empty());
            return r;
        }
        match self.best_match(w) {
            Some(p) => {
                let (s, e) = p;
                proof {
                    let q = choose|q: (int, int)| is_best_match(self@, w@, q.0, q.1);
                    lemma_best_match_unique(self@, w@, (s as int, e as int), q);
                }
                let left = sub_chars(w, 0, s);
                let mid = sub_chars(w, s, e);
                let right = sub_chars(w, e, w.len());
                let mut out = self.segment_chars(&left);
                let token = string_from_chars(mid.as_slice());
                let mut rest = self.segment_chars(&right);
                proof {
                    assert(strs(out@.push(token)) =~= strs(out@) + seq![mid@]);
                }
                out.push(token);
                proof {
                    assert(strs(out@ + rest@) =~= strs(out@) + strs(rest@));
                }
                out.append(&mut rest);
                out
            },
            None => {
                proof {
                    assert forall|q: (int, int)| !is_best_match(self@, w@, q.0, q.1) by {
                        if 0 <= q.0 < q.1 <= w@.len() {
                            assert(!self@.contains_key(w@.subrange(q.0, q.1)));
                        }
                    }
                }
                let mut r: Vec<String> = Vec::new();
                r.push(unknown_token());
                assert(strs(r@) =~= seq![unknown_marker()]);
                r
            },
        }
    }

    /// Segments `text` greedily: the longest substring that is a token (the
    /// highest-scoring of that length, the rightmost on a tie) is taken, the
    /// parts left and right of it are segmented in turn; where no substring
    /// is a token the whole span becomes `<unk>`. Empty text gives nothing.
    pub fn tokenize_word(&self, text: &str) -> (r: Vec<String>)
        ensures
            strs(r@) == segment_word(self@, text@),
    {
        let w = chars_of(text);
        self.segment_chars(&w)
    }

    /// The tokens of one sentence given its words, already lowercased: `<s>`,
    /// then each word, with the word-break marker in front, segmented in
    /// turn, then `</s>`.
    pub fn tokenize_sentence_words(&self, words: &Vec<String>) -> (r: Vec<String>)
        ensures
            strs(r@) == sentence_tokens(self@, strs(words@)),
    {
        let ghost ws = strs(words@);
        let ghost parts = ws.map_values(|w: Seq<char>| segment_word(self@, marked_word(w)));
        let mut out: Vec<String> = Vec::new();
        out.push(start_token());
        let mut i: usize = 0;
        while i < words.len()
            invariant
                ws == strs(words@),
                parts == ws.map_values(|w: Seq<char>| segment_word(self@, marked_word(w))),
                0 <= i <= words@.len(),
                strs(out@) == seq![start_marker()] + parts.take(i as int).flatten(),
            decreases words@.len() - i,
        {
            let mut w: Vec<char> = Vec::new();
            w.push(WORD_BREAK_CHAR);
            let mut cs = chars_of(words[i].as_str());
            w.append(&mut cs);
            assert(w@ == marked_word(ws[i as int]));
            let mut seg = self.segment_chars(&w);
            proof {
                assert(parts.take(i + 1) =~= parts.take(i as int).push(parts[i as int]));
                parts.take(i as int).lemma_flatten_push(parts[i as int]);
                assert(strs(out@ + seg@) =~= strs(out@) + strs(seg@));
            }
            out.append(&mut seg);
            i = i + 1;
        }
        assert(parts.take(words@.len() as int) =~= parts);
        let end = end_token();
        proof {
            assert(strs(out@.push(end)) =~= strs(out@).push(end@));
        }
        out.push(end);
        out
    }

    /// The tokens of one sentence: `tokenize_sentence_words` on its Unicode
    /// words, lowercased.
    pub fn tokenize_sentence_with_markers(&self, sentence: &str) -> (r: Vec<String>)
        ensures
            strs(r@) == sentence_block(self@, sentence@),
    {
        let words = words_of(sentence);
        let ghost ws = strs(words@);
        let mut lowered: Vec<String> = Vec::new();
        let mut i: usize = 0;
        while i < words.len()
            invariant
                ws == strs(words@),
                ws == unicode_words_of(sentence@),
                0 <= i <= words@.len(),
                strs(lowered@) == ws.take(i as int).map_values(|w: Seq<char>| lower_of(w)),
            decreases words@.len() - i,
        {
            let l = lowercase(words[i].as_str());
            proof {
                assert(strs(lowered@.push(l)) =~= strs(lowered@).push(l@));
                assert(ws.take(i + 1).map_values(|w: Seq<char>| lower_of(w)) =~= ws.take(
                    i as int,
                ).map_values(|w: Seq<char>| lower_of(w)).push(lower_of(ws[i as int])));
            }
            lowered.push(l);
            i = i + 1;
        }
        assert(ws.take(words@.len() as int) =~= ws);
        self.tokenize_sentence_words(&lowered)
    }

    /// The tokens of `text`: for each of its Unicode sentences, `<s>`, the
    /// segmented lowercased words, each with the word-break marker in front,
    /// and `</s>`. The result depends on the vocabulary and the text alone.
    pub fn tokenize(&self, text: &str) -> (r: Vec<String>)
        ensures
            strs(r@) == text_tokens(self@, text@),
    {
        let sentences = sentences_of(text);
        let ghost ss = strs(sentences@);
        let ghost blocks = ss.map_values(|s: Seq<char>| sentence_block(self@, s));
        let mut out: Vec<String> = Vec::new();
        let mut i: usize = 0;
        while i < sentences.len()
            invariant
                ss == strs(sentences@),
                ss == unicode_sentences_of(text@),
                blocks == ss.map_values(|s: Seq<char>| sentence_block(self@, s)),
                0 <= i <= sentences@.len(),
                strs(out@) == blocks.take(i as int).flatten(),
            decreases sentences@.len() - i,
        {
            let mut block = self.tokenize_sentence_with_markers(sentences[i].as_str());
            proof {
                assert(blocks.take(i + 1) =~= blocks.take(i as int).push(blocks[i as int]));
                blocks.take(i as int).lemma_flatten_push(blocks[i as int]);
                assert(strs(out@ + block@) =~= strs(out@) + strs(block@));
            }
            out.append(&mut block);
            i = i + 1;
        }
        assert(blocks.take(sentences@.len() as int) =~= blocks);
        out
    }
}


/// Why a vocabulary line could not be read; `line` counts from 1.
#[derive(Debug, Clone, Copy, PartialEq, Eq, Structural)]
pub enum DataFormatError {
    /// The line has fewer than two whitespace-separated fields.
    MissingField { line: usize },
    /// The second field is not a decimal integer that fits in `isize`.
    InvalidScore { line: usize },
}

/// The (token, score) entry that the fields of a vocabulary line give: the
/// first field, scored by the second; `None` when there are fewer than two
/// fields or the second is not an `isize`. Later fields are ignored.
pub open spec fn entry_of_fields(f: Seq<Seq<char>>) -> Option<(Seq<char>, isize)> {
    if f.len() >= 2 {
        match isize_of(f[1]) {
            Some(x) => Some((f[0], x)),
            None => None,
        }
    } else {
        None
    }
}

/// The entry of a vocabulary line.
pub open spec fn entry_of(line: Seq<char>) -> Option<(Seq<char>, isize)> {
    entry_of_fields(whitespace_fields(line))
}

/// The error for a line, numbered `number`, whose fields are `f`.
pub open spec fn fields_error(f: Seq<Seq<char>>, number: int) -> DataFormatError {
    if f.len() < 2 {
        DataFormatError::MissingField { line: number as usize }
    } else {
        DataFormatError::InvalidScore { line: number as usize }
    }
}

/// `v` with the entries of `lines` set in order, later ones replacing
/// earlier ones; lines without an entry change nothing.
pub open spec fn loaded(v: Map<Seq<char>, isize>, lines: Seq<Seq<char>>) -> Map<Seq<char>, isize>
    decreases lines.len(),
{
    if lines.len() == 0 {
        v
    } else {
        match entry_of(lines.last()) {
            Some(e) => loaded(v, lines.drop_last()).insert(e.0, e.1),
            None => loaded(v, lines.drop_last()),
        }
    }
}

/// Whether loading `lines` fails at line index `k` with `e`: the lines
/// before it have entries, it has none, and `e` names its fault and number.
pub open spec fn fails_at(lines: Seq<Seq<char>>, k: int, e: DataFormatError) -> bool {
    &&& 0 <= k < lines.len()
    &&& entry_of(lines[k]) is None
    &&& forall|j: int| 0 <= j < k ==> #[trigger] entry_of(lines[j]) is Some
    &&& e == fields_error(whitespace_fields(lines[k]), k + 1)
}

proof fn lemma_loaded_step(v: Map<Seq<char>, isize>, lines: Seq<Seq<char>>, k: int)
    requires
        0 <= k < lines.len(),
    ensures
        loaded(v, lines.take(k + 1)) == match entry_of(lines[k]) {
            Some(e) => loaded(v, lines.take(k)).insert(e.0, e.1),
            None => loaded(v, lines.take(k)),
        },
{
    assert(lines.take(k + 1).drop_last() =~= lines.take(k));
    assert(lines.take(k + 1).last() == lines[k]);
}

impl StandardBPE {
    /// Adds the entry of a vocabulary line, given its whitespace-separated
    /// fields and its number: the first field scored by the second. Fails,
    /// changing nothing, when there are fewer than two fields or the second
    /// is not a decimal integer that fits in `isize`.
    pub fn insert_fields(&mut self, fields: &Vec<String>, number: usize) -> (r: Result<
        (),
        DataFormatError,
    >)
        ensures
            match entry_of_fields(strs(fields@)) {
                Some(e) => r == Ok::<(), DataFormatError>(()) && final(self)@ == old(self)@.insert(
                    e.0,
                    e.1,
                ),
                None => r == Err::<(), DataFormatError>(fields_error(strs(fields@), number as int))
                    && final(self)@ == old(self)@,
            },
    {
        if fields.len() < 2 {
            return Err(DataFormatError::MissingField { line: number });
        }
        match parse_isize(fields[1].as_str()) {
            Some(score) => {
                self.insert(fields[0].as_str(), score);
                Ok(())
            },
            None => Err(DataFormatError::InvalidScore { line: number }),
        }
    }

    /// Adds the entry of one vocabulary line, numbered `number`.
    fn load_line(&mut self, line: &String, number: usize) -> (r: Result<(), DataFormatError>)
        ensures
            match entry_of(line@) {
                Some(e) => r is Ok && final(self)@ == old(self)@.insert(e.0, e.1),
                None => r == Err::<(), DataFormatError>(
                    fields_error(whitespace_fields(line@), number as int),
                ) && final(self)@ == old(self)@,
            },
    {
        let fields = split_fields(line.as_str());
        assert(strs(fields@) == whitespace_fields(line@));
        self.insert_fields(&fields, number)
    }

    /// Loads `token score` lines into the vocabulary, in order; an entry
    /// replaces any earlier score of its token. Stops at the first line
    /// that has fewer than two fields or a score that is not an `isize`,
    /// and returns its error; the lines before it stay loaded.
    pub fn load_vocab_lines(&mut self, lines: &Vec<String>) -> (r: Result<(), DataFormatError>)
        ensures
            match r {
                Ok(()) => {
                    &&& forall|k: int| 0 <= k < lines@.len() ==> #[trigger] entry_of(lines@[k]@) is Some
                    &&& final(self)@ == loaded(old(self)@, strs(lines@))
                },
                Err(e) => exists|k: int|
                    #[trigger] fails_at(strs(lines@), k, e) && final(self)@ == loaded(
                        old(self)@,
                        strs(lines@).take(k),
                    ),
            },
    {
        let ghost ls = strs(lines@);
        let ghost v0 = self@;
        let mut k: usize = 0;
        while k < lines.len()
            invariant
                ls == strs(lines@),
                v0 == old(self)@,
                0 <= k <= lines@.len(),
                self@ == loaded(v0, ls.take(k as int)),
                forall|j: int| 0 <= j < k ==> #[trigger] entry_of(ls[j]) is Some,
            decreases lines@.len() - k,
        {
            proof {
                lemma_loaded_step(v0, ls, k as int);
            }
            let res = self.load_line(&lines[k], k + 1);
            if let Err(e) = res {
                proof {
                    assert(ls[k as int] == lines@[k as int]@);
                    assert forall|j: int| 0 <= j < k implies #[trigger] entry_of(lines@[j]@) is Some by {
                        assert(ls[j] == lines@[j]@);
                    }
                    assert(fails_at(ls, k as int, e));
                }
                return Err(e);
            }
            proof {
                assert(ls[k as int] == lines@[k as int]@);
                assert(entry_of(ls[k as int]) is Some);
                assert(self@ == loaded(v0, ls.take(k + 1)));
            }
            k = k + 1;
        }
        assert(ls.take(lines@.len() as int) =~= ls);
        assert forall|j: int| 0 <= j < lines@.len() implies #[trigger] entry_of(lines@[j]@) is Some by {
            assert(ls[j] == lines@[j]@);
        }
        Ok(())
    }
}

/// Sentence markers: the tokens of every sentence begin with `<s>` and end
/// with `</s>`, so the tokens of a text that has a sentence begin with `<s>`
/// and end with `</s>`.
pub proof fn lemma_sentence_markers(v: Map<Seq<char>, isize>, text: Seq<char>, sentence: Seq<char>)
    ensures
        sentence_block(v, sentence).len() >= 2,
        sentence_block(v, sentence)[0] == start_marker(),
        sentence_block(v, sentence).last() == end_marker(),
        unicode_sentences_of(text).len() > 0 ==> {
            &&& text_tokens(v, text).len() >= 2
            &&& text_tokens(v, text)[0] == start_marker()
            &&& text_tokens(v, text).last() == end_marker()
        },
{
    let ss = unicode_sentences_of(text);
    if ss.len() > 0 {
        let blocks = ss.map_values(|s: Seq<char>| sentence_block(v, s));
        let first = sentence_block(v, ss[0]);
        let last = sentence_block(v, ss.last());
        assert(blocks[0] == first);
        assert(blocks.last() == last);
        assert(blocks.flatten() == first + blocks.drop_first().flatten());
        blocks.lemma_flatten_and_flatten_alt_are_equivalent();
        assert(blocks.flatten_alt() == blocks.drop_last().flatten_alt() + last);
    }
}

} // verus!
