//! Fixed-length lowercase words packed into a single base-26 number.
use vstd::prelude::*;

verus! {

/// Number of letters in every word.
pub const WORD_LEN: usize = 4;

/// Number of distinct encoded words: 26 to the power `WORD_LEN`.
pub const WORD_SPACE: u32 = 456976;

/// Weight of the letter at `pos` in the encoding: 26 to the power `3 - pos`.
pub open spec fn place(pos: int) -> int {
    if pos == 0 {
        17576
    } else if pos == 1 {
        676
    } else if pos == 2 {
        26
    } else {
        1
    }
}

/// The letter value (0 for `a` to 25 for `z`) at `pos` of encoded word `w`,
/// most significant position first.
pub open spec fn letter_at(w: int, pos: int) -> int {
    (w % (26 * place(pos))) / place(pos)
}

/// One if the two encoded words disagree at `pos`, else zero.
pub open spec fn differs_at(a: int, b: int, pos: int) -> int {
    if letter_at(a, pos) != letter_at(b, pos) {
        1
    } else {
        0
    }
}

/// Number of positions at which two encoded words hold different letters.
pub open spec fn letter_distance(a: int, b: int) -> int {
    differs_at(a, b, 0) + differs_at(a, b, 1) + differs_at(a, b, 2) + differs_at(a, b, 3)
}

/// Letter value of a character, `a` being zero.
pub open spec fn letter_value(c: char) -> int {
    c as int - 'a' as int
}

/// Whether `c` belongs to the alphabet.
pub open spec fn is_letter(c: char) -> bool {
    'a' <= c && c <= 'z'
}

/// Whether `s` is a word: exactly `WORD_LEN` letters of the alphabet.
pub open spec fn is_word_text(s: Seq<char>) -> bool {
    s.len() == WORD_LEN && forall|i: int| 0 <= i < s.len() ==> is_letter(#[trigger] s[i])
}

/// The encoding of a word: the sum of each letter value times its place.
pub open spec fn encoding_of(s: Seq<char>) -> int {
    letter_value(s[0]) * place(0) + letter_value(s[1]) * place(1) + letter_value(s[2]) * place(2)
        + letter_value(s[3]) * place(3)
}

/// The character of letter value `v`.
pub open spec fn letter_char(v: int) -> char {
    ('a' as int + v) as char
}

/// The text of an encoded word.
pub open spec fn text_of(w: int) -> Seq<char> {
    seq![
        letter_char(letter_at(w, 0)),
        letter_char(letter_at(w, 1)),
        letter_char(letter_at(w, 2)),
        letter_char(letter_at(w, 3)),
    ]
}

/// Whether `e` names the first fault of text `s`: a wrong length, or else the
/// first position that holds no letter.
pub open spec fn describes_fault(s: Seq<char>, e: WordError) -> bool {
    match e {
        WordError::WrongLength(n) => s.len() != WORD_LEN && n == s.len(),
        WordError::NotALetter(i) => {
            &&& s.len() == WORD_LEN
            &&& i < WORD_LEN
            &&& !is_letter(s[i as int])
            &&& forall|j: int| 0 <= j < i ==> is_letter(#[trigger] s[j])
        },
    }
}

/// Why a text is not a word.
#[derive(Debug, Clone, Copy, PartialEq, Eq, Structural)]
pub enum WordError {
    /// The text does not hold exactly `WORD_LEN` characters; carries the count.
    WrongLength(usize),
    /// The character at this position is not a lowercase letter.
    NotALetter(usize),
}

/// A word of `WORD_LEN` lowercase letters, stored as its base-26 value.
#[derive(Debug, Clone, Copy, PartialEq, Eq, Hash, PartialOrd, Ord, Structural)]
pub struct Word(u32);

impl View for Word {
    type V = int;

    closed spec fn view(&self) -> int {
        self.0 as int
    }
}

impl Word {
    /// Every stored value encodes a word.
    #[verifier::type_invariant]
    spec fn in_range(self) -> bool {
        self.0 < WORD_SPACE
    }

    /// The encoded value.
    pub fn value(&self) -> (r: u32)
        ensures
            r as int == self@,
            r < WORD_SPACE,
    {
        proof {
            use_type_invariant(self);
        }
        self.0
    }
}

/// Positions `0..k` at which two encoded words disagree, counted.
pub open spec fn differences_before(a: int, b: int, k: int) -> int
    decreases k,
{
    if k <= 0 {
        0
    } else {
        differences_before(a, b, k - 1) + differs_at(a, b, k - 1)
    }
}

/// Relies on String::push: the character is appended at the end.
#[verifier::external_body]
fn push_char(s: &mut String, c: char)
    ensures
        final(s)@ == old(s)@.push(c),
{
    s.push(c)
}

/// The weight of position `pos`.
pub(crate) fn place_value(pos: u32) -> (r: u32)
    requires
        pos < 4,
    ensures
        r as int == place(pos as int),
{
    if pos == 0 {
        17576
    } else if pos == 1 {
        676
    } else if pos == 2 {
        26
    } else {
        1
    }
}

impl Word {
    /// Encodes a text of `WORD_LEN` lowercase letters; any other text is refused,
    /// a wrong length first, else the first position that holds no letter.
    pub fn new(s: &str) -> (r: Result<Word, WordError>)
        ensures
            r is Ok <==> is_word_text(s@),
            r matches Ok(w) ==> w@ == encoding_of(s@),
            r matches Err(e) ==> describes_fault(s@, e),
    {
        let n = s.unicode_len();
        if n != WORD_LEN {
            return Err(WordError::WrongLength(n));
        }
        let mut i: usize = 0;
        while i < WORD_LEN
            invariant
                s@.len() == WORD_LEN,
                i <= WORD_LEN,
                forall|j: int| 0 <= j < i ==> is_letter(#[trigger] s@[j]),
            decreases WORD_LEN - i,
        {
            let c = s.get_char(i);
            if !('a' <= c && c <= 'z') {
                return Err(WordError::NotALetter(i));
            }
            i = i + 1;
        }
        let a = s.get_char(0) as u32 - 'a' as u32;
        let b = s.get_char(1) as u32 - 'a' as u32;
        let c = s.get_char(2) as u32 - 'a' as u32;
        let d = s.get_char(3) as u32 - 'a' as u32;
        proof {
            assert(is_letter(s@[0]) && is_letter(s@[1]) && is_letter(s@[2]) && is_letter(s@[3]));
            lemma_compose_letters(a as int, b as int, c as int, d as int);
        }
        Ok(Word(a * 17576 + b * 676 + c * 26 + d))
    }

    /// The word with encoded value `v`.
    pub(crate) fn from_value(v: u32) -> (r: Word)
        requires
            v < WORD_SPACE,
        ensures
            r@ == v,
    {
        Word(v)
    }

    /// The letter value at `pos`, most significant position first.
    pub fn get_letter(&self, pos: u32) -> (r: u32)
        requires
            pos < WORD_LEN,
        ensures
            r as int == letter_at(self@, pos as int),
            r < 26,
    {
        proof {
            use_type_invariant(self);
            lemma_letters_compose(self@);
        }
        let p = place_value(pos);
        (self.0 % (26 * p)) / p
    }

    /// Number of positions at which the two words hold different letters.
    pub fn distance(&self, other: Word) -> (r: u16)
        ensures
            r as int == letter_distance(self@, other@),
    {
        let mut d: u16 = 0;
        let mut i: u32 = 0;
        while i < 4
            invariant
                i <= 4,
                d as int == differences_before(self@, other@, i as int),
                d <= i,
            decreases 4 - i,
        {
            if self.get_letter(i) != other.get_letter(i) {
                d = d + 1;
            }
            i = i + 1;
        }
        assert(differences_before(self@, other@, 4) == letter_distance(self@, other@)) by {
            reveal_with_fuel(differences_before, 5);
        }
        d
    }

    /// The text of the word: `WORD_LEN` lowercase letters.
    pub fn to_string(&self) -> (r: String)
        ensures
            r@ == text_of(self@),
            is_word_text(r@),
    {
        let mut out = String::new();
        let mut i: u32 = 0;
        while i < 4
            invariant
                i <= 4,
                out@.len() == i,
                forall|j: int| 0 <= j < i ==> out@[j] == letter_char(letter_at(self@, j)),
                forall|j: int| 0 <= j < i ==> is_letter(#[trigger] out@[j]),
            decreases 4 - i,
        {
            let l = self.get_letter(i);
            let c = (l + 'a' as u32) as u8 as char;
            assert(c == letter_char(letter_at(self@, i as int)));
            push_char(&mut out, c);
            i = i + 1;
        }
        assert(out@ =~= text_of(self@));
        out
    }
}

/// The digits of a value below `WORD_SPACE` rebuild it.
pub proof fn lemma_letters_compose(w: int)
    requires
        0 <= w < WORD_SPACE,
    ensures
        w == letter_at(w, 0) * 17576 + letter_at(w, 1) * 676 + letter_at(w, 2) * 26 + letter_at(w, 3),
        0 <= letter_at(w, 0) < 26,
        0 <= letter_at(w, 1) < 26,
        0 <= letter_at(w, 2) < 26,
        0 <= letter_at(w, 3) < 26,
{
    let a = w / 17576;
    let r0 = w % 17576;
    let b = r0 / 676;
    let r1 = r0 % 676;
    let c = r1 / 26;
    let d = r1 % 26;
    assert(w == a * 17576 + r0 && 0 <= r0 < 17576) by (nonlinear_arith)
        requires a == w / 17576, r0 == w % 17576, 0 <= w;
    assert(r0 == b * 676 + r1 && 0 <= r1 < 676) by (nonlinear_arith)
        requires b == r0 / 676, r1 == r0 % 676, 0 <= r0;
    assert(r1 == c * 26 + d && 0 <= d < 26) by (nonlinear_arith)
        requires c == r1 / 26, d == r1 % 26, 0 <= r1;
    assert(0 <= a < 26) by (nonlinear_arith)
        requires a == w / 17576, 0 <= w < 456976;
    assert(0 <= b < 26) by (nonlinear_arith)
        requires b == r0 / 676, 0 <= r0 < 17576;
    assert(0 <= c < 26) by (nonlinear_arith)
        requires c == r1 / 26, 0 <= r1 < 676;
    assert(w % 456976 == w) by (nonlinear_arith)
        requires 0 <= w < 456976;
    assert(w % 676 == r1) by (nonlinear_arith)
        requires w == a * 17576 + b * 676 + r1, 0 <= r1 < 676, 0 <= a, 0 <= b;
    assert(w % 26 == d) by (nonlinear_arith)
        requires w == a * 17576 + b * 676 + c * 26 + d, 0 <= d < 26, 0 <= a, 0 <= b, 0 <= c;
    assert((w % 26) / 1 == w % 26);
}

/// Four letter values rebuild exactly the word whose digits they are.
pub proof fn lemma_compose_letters(a: int, b: int, c: int, d: int)
    requires
        0 <= a < 26,
        0 <= b < 26,
        0 <= c < 26,
        0 <= d < 26,
    ensures
        0 <= a * 17576 + b * 676 + c * 26 + d < WORD_SPACE,
        letter_at(a * 17576 + b * 676 + c * 26 + d, 0) == a,
        letter_at(a * 17576 + b * 676 + c * 26 + d, 1) == b,
        letter_at(a * 17576 + b * 676 + c * 26 + d, 2) == c,
        letter_at(a * 17576 + b * 676 + c * 26 + d, 3) == d,
{
    let w = a * 17576 + b * 676 + c * 26 + d;
    assert(0 <= w < 456976) by (nonlinear_arith)
        requires w == a * 17576 + b * 676 + c * 26 + d, 0 <= a < 26, 0 <= b < 26, 0 <= c < 26, 0 <= d < 26;
    lemma_letters_compose(w);
    let (a2, b2, c2, d2) = (letter_at(w, 0), letter_at(w, 1), letter_at(w, 2), letter_at(w, 3));
    assert(a2 == a && b2 == b && c2 == c && d2 == d) by (nonlinear_arith)
        requires
            w == a * 17576 + b * 676 + c * 26 + d,
            w == a2 * 17576 + b2 * 676 + c2 * 26 + d2,
            0 <= a < 26, 0 <= b < 26, 0 <= c < 26, 0 <= d < 26,
            0 <= a2 < 26, 0 <= b2 < 26, 0 <= c2 < 26, 0 <= d2 < 26;
}

/// A text of a word list that is not a word: its index and its fault.
#[derive(Debug, Clone, Copy, PartialEq, Eq, Structural)]
pub struct BadWord {
    pub index: usize,
    pub fault: WordError,
}

/// Encodes every text of a word list. Succeeds only when each text is a word,
/// with the words in the order of the texts; otherwise lists every text that
/// is not a word, in order, with its fault.
pub fn encode_all(texts: &Vec<String>) -> (r: Result<Vec<Word>, Vec<BadWord>>)
    ensures
        r is Ok <==> forall|i: int| 0 <= i < texts.len() ==> is_word_text(#[trigger] texts@[i]@),
        r matches Ok(ws) ==> ws.len() == texts.len() && forall|i: int|
            0 <= i < texts.len() ==> (#[trigger] ws@[i])@ == encoding_of(texts@[i]@),
        r matches Err(bad) ==> {
            &&& forall|j: int|
                0 <= j < bad.len() ==> (#[trigger] bad@[j]).index < texts.len() && describes_fault(
                    texts@[bad@[j].index as int]@,
                    bad@[j].fault,
                )
            &&& forall|j: int, m: int| 0 <= j < m < bad.len() ==> bad@[j].index < bad@[m].index
            &&& forall|i: int|
                0 <= i < texts.len() && !is_word_text(#[trigger] texts@[i]@) ==> exists|j: int|
                    0 <= j < bad.len() && bad@[j].index == i
        },
{
    let mut ws: Vec<Word> = Vec::new();
    let mut bad: Vec<BadWord> = Vec::new();
    let mut i: usize = 0;
    while i < texts.len()
        invariant
            i <= texts.len(),
            bad.len() == 0 ==> ws.len() == i && forall|k: int|
                0 <= k < i ==> is_word_text(#[trigger] texts@[k]@) && ws@[k]@ == encoding_of(texts@[k]@),
            forall|j: int|
                0 <= j < bad.len() ==> (#[trigger] bad@[j]).index < i && describes_fault(
                    texts@[bad@[j].index as int]@,
                    bad@[j].fault,
                ),
            forall|j: int, m: int| 0 <= j < m < bad.len() ==> bad@[j].index < bad@[m].index,
            forall|k: int|
                0 <= k < i && !is_word_text(#[trigger] texts@[k]@) ==> exists|j: int|
                    0 <= j < bad.len() && bad@[j].index == k,
        decreases texts.len() - i,
    {
        match Word::new(texts[i].as_str()) {
            Ok(w) => {
                if bad.len() == 0 {
                    ws.push(w);
                }
            },
            Err(e) => {
                let ghost old_bad = bad@;
                bad.push(BadWord { index: i, fault: e });
                proof {
                    assert forall|k: int|
                        0 <= k < i + 1 && !is_word_text(#[trigger] texts@[k]@) implies exists|j: int|
                            0 <= j < bad.len() && bad@[j].index == k by {
                        if k < i {
                            let j = choose|j: int| 0 <= j < old_bad.len() && old_bad[j].index == k;
                            assert(bad@[j].index == k);
                        } else {
                            assert(bad@[bad.len() - 1].index == k);
                        }
                    }
                }
            },
        }
        i = i + 1;
    }
    if bad.len() == 0 {
        Ok(ws)
    } else {
        proof {
            let j = bad.len() - 1;
            assert(!is_word_text(texts@[bad@[j as int].index as int]@));
        }
        Err(bad)
    }
}

/// Whether `w` is `v` with the letter at `pos` lowered and every other letter kept.
pub open spec fn single_drop(v: int, w: int, pos: int) -> bool {
    &&& 0 <= pos < 4
    &&& 0 <= letter_at(w, pos) < letter_at(v, pos)
    &&& (pos == 0 || letter_at(w, 0) == letter_at(v, 0))
    &&& (pos == 1 || letter_at(w, 1) == letter_at(v, 1))
    &&& (pos == 2 || letter_at(w, 2) == letter_at(v, 2))
    &&& (pos == 3 || letter_at(w, 3) == letter_at(v, 3))
}

/// Lowering the letter at `pos` by `k` subtracts `k` times its place.
pub proof fn lemma_drop_letter(v: int, pos: int, k: int)
    requires
        0 <= v < WORD_SPACE,
        0 <= pos < 4,
        1 <= k <= letter_at(v, pos),
    ensures
        0 <= v - k * place(pos) < v,
        letter_at(v - k * place(pos), pos) == letter_at(v, pos) - k,
        single_drop(v, v - k * place(pos), pos),
{
    lemma_letters_compose(v);
    let (a, b, c, d) = (letter_at(v, 0), letter_at(v, 1), letter_at(v, 2), letter_at(v, 3));
    if pos == 0 {
        assert(place(pos) == 17576);
        assert(v - k * 17576 == (a - k) * 17576 + b * 676 + c * 26 + d) by (nonlinear_arith)
            requires v == a * 17576 + b * 676 + c * 26 + d;
        lemma_compose_letters(a - k, b, c, d);
    } else if pos == 1 {
        assert(place(pos) == 676);
        assert(v - k * 676 == a * 17576 + (b - k) * 676 + c * 26 + d) by (nonlinear_arith)
            requires v == a * 17576 + b * 676 + c * 26 + d;
        lemma_compose_letters(a, b - k, c, d);
    } else if pos == 2 {
        assert(place(pos) == 26);
        assert(v - k * 26 == a * 17576 + b * 676 + (c - k) * 26 + d) by (nonlinear_arith)
            requires v == a * 17576 + b * 676 + c * 26 + d;
        lemma_compose_letters(a, b, c - k, d);
    } else {
        assert(place(pos) == 1);
        assert(v - k * 1 == a * 17576 + b * 676 + c * 26 + (d - k)) by (nonlinear_arith)
            requires v == a * 17576 + b * 676 + c * 26 + d;
        lemma_compose_letters(a, b, c, d - k);
    }
}

/// A word one lowered letter away from `v` is `v` minus the drop times its place.
pub proof fn lemma_single_drop_value(v: int, w: int, pos: int)
    requires
        0 <= v < WORD_SPACE,
        0 <= w < WORD_SPACE,
        single_drop(v, w, pos),
    ensures
        w == v - (letter_at(v, pos) - letter_at(w, pos)) * place(pos),
        letter_distance(v, w) == 1,
        w < v,
{
    lemma_letters_compose(v);
    lemma_letters_compose(w);
}

/// A smaller word at letter distance one is a single drop at some position.
pub proof fn lemma_adjacent_below(v: int, w: int) -> (pos: int)
    requires
        0 <= v < WORD_SPACE,
        0 <= w < WORD_SPACE,
        w < v,
        letter_distance(v, w) == 1,
    ensures
        single_drop(v, w, pos),
{
    lemma_letters_compose(v);
    lemma_letters_compose(w);
    if letter_at(v, 0) != letter_at(w, 0) {
        0
    } else if letter_at(v, 1) != letter_at(w, 1) {
        1
    } else if letter_at(v, 2) != letter_at(w, 2) {
        2
    } else {
        3
    }
}

/// Decoding an encoded word gives back its text.
pub proof fn lemma_round_trip(s: Seq<char>)
    requires
        is_word_text(s),
    ensures
        0 <= encoding_of(s) < WORD_SPACE,
        text_of(encoding_of(s)) == s,
{
    assert(is_letter(s[0]) && is_letter(s[1]) && is_letter(s[2]) && is_letter(s[3]));
    lemma_compose_letters(letter_value(s[0]), letter_value(s[1]), letter_value(s[2]), letter_value(s[3]));
    lemma_letter_char_value(s[0]);
    lemma_letter_char_value(s[1]);
    lemma_letter_char_value(s[2]);
    lemma_letter_char_value(s[3]);
    assert(text_of(encoding_of(s)) =~= s);
}

/// A letter is the character of its own letter value.
pub proof fn lemma_letter_char_value(c: char)
    requires
        is_letter(c),
    ensures
        letter_char(letter_value(c)) == c,
{
    assert(('a' as int + (c as int - 'a' as int)) == c as int);
    assert((c as int) as char == c);
}

/// Letter distance is zero from a word to itself, symmetric, and at most
/// `WORD_LEN`.
pub proof fn lemma_distance_laws(a: int, b: int)
    ensures
        letter_distance(a, a) == 0,
        letter_distance(a, b) == letter_distance(b, a),
        0 <= letter_distance(a, b) <= WORD_LEN,
{
}

} // verus!
