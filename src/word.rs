use vstd::prelude::*;

use crate::charset::{is_letter, letter_at, letter_index, letters_of, Charset};

verus! {

/// The bits of one slot.
pub const MASK: u32 = 0x1f;

/// Every character in a slot is a letter or this blank.
pub open spec fn blank() -> char {
    ' '
}

/// What a slot keeps of a character: a letter stays, anything else becomes the blank.
pub open spec fn normalize(c: char) -> char {
    if is_letter(c) {
        c
    } else {
        blank()
    }
}

/// The slot value of a character: 1 to 26 for a letter, 0 for anything else.
pub open spec fn code(c: char) -> u32 {
    if is_letter(c) {
        (letter_index(c) + 1) as u32
    } else {
        0
    }
}

/// The character that a slot value stands for.
pub open spec fn char_of_slot(v: u32) -> char {
    if 1 <= v <= 26 {
        letter_at((v - 1) as u32)
    } else {
        blank()
    }
}

/// The value of slot `i` of a packed word.
pub open spec fn slot(bits: u32, i: u32) -> u32 {
    (bits >> ((5 * i) as u32)) & MASK
}

/// The five characters packed in `bits`.
pub open spec fn unpack(bits: u32) -> Seq<char> {
    Seq::new(5, |i: int| char_of_slot(slot(bits, i as u32)))
}

/// The packed form of five characters: slot `i` holds `code(s[i])` at bit `5 * i`.
pub open spec fn packed(s: Seq<char>) -> int {
    code(s[0]) + code(s[1]) * 0x20 + code(s[2]) * 0x400 + code(s[3]) * 0x8000 + code(s[4])
        * 0x10_0000
}

/// A key whose order on words is the lexical order of their characters, the blank first.
pub open spec fn lex_key(s: Seq<char>) -> int {
    code(s[0]) * 0x10_0000 + code(s[1]) * 0x8000 + code(s[2]) * 0x400 + code(s[3]) * 0x20 + code(
        s[4],
    )
}

/// The word that `s` gives: its first five characters, normalized, and blanks after its end.
pub open spec fn word_of(s: Seq<char>) -> Seq<char> {
    Seq::new(5, |i: int| if i < s.len() { normalize(s[i]) } else { blank() })
}

/// Whether `bits` is the packed form of a word: five slots of value at most 26 and nothing
/// above them.
pub open spec fn valid_packed(bits: u32) -> bool {
    &&& bits < 0x200_0000
    &&& forall|i: u32| i < 5 ==> #[trigger] slot(bits, i) <= 26
}

/// Five characters, each a letter or the blank.
pub open spec fn is_word_shape(w: Seq<char>) -> bool {
    &&& w.len() == 5
    &&& forall|i: int| 0 <= i < 5 ==> is_slot_char(#[trigger] w[i])
}

/// Five slots, each a lowercase letter or blank, packed five bits to a slot.
#[derive(Clone, Copy, Debug, Hash)]
pub struct Word(u32);

impl View for Word {
    type V = Seq<char>;

    closed spec fn view(&self) -> Seq<char> {
        unpack(self.0)
    }
}

proof fn lemma_set_slot(x: u32, i: u32, v: u32, j: u32)
    by (bit_vector)
    requires
        i < 5,
        j < 5,
        v <= 26,
    ensures
        slot((x & !(MASK << ((5 * i) as u32))) | (v << ((5 * i) as u32)), j) == if i == j {
            v
        } else {
            slot(x, j)
        },
        x < 0x200_0000 ==> (x & !(MASK << ((5 * i) as u32))) | (v << ((5 * i) as u32))
            < 0x200_0000,
{
}

proof fn lemma_slots_sum(x: u32)
    by (bit_vector)
    requires
        x < 0x200_0000,
    ensures
        x == slot(x, 0) + slot(x, 1) * 0x20 + slot(x, 2) * 0x400 + slot(x, 3) * 0x8000 + slot(
            x,
            4,
        ) * 0x10_0000,
{
}

proof fn lemma_zero_slots(j: u32)
    by (bit_vector)
    requires
        j < 5,
    ensures
        slot(0, j) == 0,
{
}

/// Distinct digits in base 32 give distinct numbers.
proof fn lemma_digits(a0: u32, a1: u32, a2: u32, a3: u32, a4: u32, b0: u32, b1: u32, b2: u32, b3: u32, b4: u32)
    by (bit_vector)
    requires
        a0 < 32 && a1 < 32 && a2 < 32 && a3 < 32 && a4 < 32,
        b0 < 32 && b1 < 32 && b2 < 32 && b3 < 32 && b4 < 32,
        a0 * 0x10_0000 + a1 * 0x8000 + a2 * 0x400 + a3 * 0x20 + a4 == b0 * 0x10_0000 + b1 * 0x8000
            + b2 * 0x400 + b3 * 0x20 + b4,
    ensures
        a0 == b0 && a1 == b1 && a2 == b2 && a3 == b3 && a4 == b4,
{
}

/// Slot values and the characters that they stand for determine each other.
proof fn lemma_code_char(v: u32)
    requires
        v <= 26,
    ensures
        code(char_of_slot(v)) == v,
{
    if v >= 1 {
        let c = letter_at((v - 1) as u32);
        assert(is_letter(c));
        assert(letter_index(c) == v - 1);
    }
}

proof fn lemma_char_code(c: char)
    requires
        is_letter(c) || c == blank(),
    ensures
        char_of_slot(code(c)) == c,
        code(c) <= 26,
{
    if is_letter(c) {
        vstd::utf8::char_u32_cast(c, c as u32);
    }
}

/// The characters of a word are letters or blanks.
pub open spec fn is_slot_char(c: char) -> bool {
    is_letter(c) || c == blank()
}

/// Two sequences of slot characters with the same key are the same.
pub proof fn lemma_lex_key_injective(a: Seq<char>, b: Seq<char>)
    requires
        a.len() == 5,
        b.len() == 5,
        forall|i: int| 0 <= i < 5 ==> is_slot_char(#[trigger] a[i]),
        forall|i: int| 0 <= i < 5 ==> is_slot_char(#[trigger] b[i]),
        lex_key(a) == lex_key(b),
    ensures
        a == b,
{
    assert forall|i: int| 0 <= i < 5 implies char_of_slot(code(a[i])) == a[i] && char_of_slot(
        code(b[i]),
    ) == b[i] && code(a[i]) <= 26 && code(b[i]) <= 26 by {
        lemma_char_code(a[i]);
        lemma_char_code(b[i]);
    }
    lemma_digits(
        code(a[0]),
        code(a[1]),
        code(a[2]),
        code(a[3]),
        code(a[4]),
        code(b[0]),
        code(b[1]),
        code(b[2]),
        code(b[3]),
        code(b[4]),
    );
    assert(a =~= b);
}

proof fn lemma_digit_slots(c0: u32, c1: u32, c2: u32, c3: u32, c4: u32)
    by (bit_vector)
    requires
        c0 <= 26 && c1 <= 26 && c2 <= 26 && c3 <= 26 && c4 <= 26,
    ensures
        ({
            let x = (c0 + c1 * 0x20 + c2 * 0x400 + c3 * 0x8000 + c4 * 0x10_0000) as u32;
            &&& x < 0x200_0000
            &&& slot(x, 0) == c0 && slot(x, 1) == c1 && slot(x, 2) == c2
            &&& slot(x, 3) == c3 && slot(x, 4) == c4
        }),
{
}

/// Packing and unpacking undo each other on valid packed forms.
pub proof fn lemma_pack_unpack(bits: u32)
    requires
        valid_packed(bits),
    ensures
        packed(unpack(bits)) == bits,
{
    lemma_slots_sum(bits);
    assert forall|i: u32| i < 5 implies code(unpack(bits)[i as int]) == slot(bits, i) by {
        lemma_code_char(slot(bits, i));
    }
    assert(code(unpack(bits)[0]) == slot(bits, 0));
    assert(code(unpack(bits)[1]) == slot(bits, 1));
    assert(code(unpack(bits)[2]) == slot(bits, 2));
    assert(code(unpack(bits)[3]) == slot(bits, 3));
    assert(code(unpack(bits)[4]) == slot(bits, 4));
}

/// Unpacking and packing undo each other on five letters or blanks.
pub proof fn lemma_unpack_pack(w: Seq<char>)
    requires
        is_word_shape(w),
    ensures
        0 <= packed(w) < 0x200_0000,
        valid_packed(packed(w) as u32),
        unpack(packed(w) as u32) == w,
{
    assert forall|i: int| 0 <= i < 5 implies char_of_slot(code(w[i])) == w[i] && code(w[i])
        <= 26 by {
        lemma_char_code(w[i]);
    }
    lemma_digit_slots(code(w[0]), code(w[1]), code(w[2]), code(w[3]), code(w[4]));
    let x = packed(w) as u32;
    assert forall|i: u32| i < 5 implies #[trigger] slot(x, i) == code(w[i as int]) by {
        if i == 0 {
        } else if i == 1 {
        } else if i == 2 {
        } else if i == 3 {
        } else {
        }
    }
    assert(unpack(x) =~= w);
}

/// Lexical order on five characters, compared by their code points.
pub open spec fn lex_less(a: Seq<char>, b: Seq<char>) -> bool {
    (a[0] as u32) < (b[0] as u32) || (a[0] == b[0] && ((a[1] as u32) < (b[1] as u32) || (a[1]
        == b[1] && ((a[2] as u32) < (b[2] as u32) || (a[2] == b[2] && ((a[3] as u32) < (
    b[3] as u32) || (a[3] == b[3] && (a[4] as u32) < (b[4] as u32))))))))
}

proof fn lemma_digits_less(
    a0: u32,
    a1: u32,
    a2: u32,
    a3: u32,
    a4: u32,
    b0: u32,
    b1: u32,
    b2: u32,
    b3: u32,
    b4: u32,
)
    by (bit_vector)
    requires
        a0 < 32 && a1 < 32 && a2 < 32 && a3 < 32 && a4 < 32,
        b0 < 32 && b1 < 32 && b2 < 32 && b3 < 32 && b4 < 32,
    ensures
        (a0 * 0x10_0000 + a1 * 0x8000 + a2 * 0x400 + a3 * 0x20 + a4 < b0 * 0x10_0000 + b1 * 0x8000
            + b2 * 0x400 + b3 * 0x20 + b4) <==> (a0 < b0 || (a0 == b0 && (a1 < b1 || (a1 == b1 && (
        a2 < b2 || (a2 == b2 && (a3 < b3 || (a3 == b3 && a4 < b4)))))))),
{
}

/// Slot values order characters as their code points do, the blank first.
proof fn lemma_code_order(c: char, d: char)
    requires
        is_slot_char(c),
        is_slot_char(d),
    ensures
        (code(c) < code(d)) <==> ((c as u32) < (d as u32)),
        (code(c) == code(d)) <==> (c == d),
{
    lemma_char_code(c);
    lemma_char_code(d);
}

/// The key orders words of letters and blanks lexically.
pub proof fn lemma_lex_key_order(a: Seq<char>, b: Seq<char>)
    requires
        is_word_shape(a),
        is_word_shape(b),
    ensures
        lex_key(a) < lex_key(b) <==> lex_less(a, b),
{
    lemma_code_order(a[0], b[0]);
    lemma_code_order(a[1], b[1]);
    lemma_code_order(a[2], b[2]);
    lemma_code_order(a[3], b[3]);
    lemma_code_order(a[4], b[4]);
    assert forall|i: int| 0 <= i < 5 implies code(a[i]) <= 26 && code(b[i]) <= 26 by {
        lemma_char_code(a[i]);
        lemma_char_code(b[i]);
    }
    lemma_digits_less(
        code(a[0]),
        code(a[1]),
        code(a[2]),
        code(a[3]),
        code(a[4]),
        code(b[0]),
        code(b[1]),
        code(b[2]),
        code(b[3]),
        code(b[4]),
    );
}

/// The slot value of a character.
fn char_bits(c: char) -> (r: u32)
    ensures
        r == code(c),
        r <= 26,
{
    if c < 'a' || c > 'z' {
        return 0;
    }
    return c as u32 - 'a' as u32 + 1;
}

/// The character of a slot value.
fn char_from_bits(bits: u32) -> (r: char)
    requires
        bits <= 26,
    ensures
        r == char_of_slot(bits),
{
    if bits == 0 {
        return ' ';
    }
    (96u8 + bits as u8) as char
}

impl Word {
    /// Slot values stay within 1 to 26 for letters and 0 for the blank, and no bit above the
    /// five slots is set.
    #[verifier::type_invariant]
    spec fn inv(self) -> bool {
        valid_packed(self.0)
    }

    /// The word whose packed form is `bits`.
    pub(crate) fn from_packed(bits: u32) -> (r: Word)
        requires
            valid_packed(bits),
        ensures
            r@ == unpack(bits),
    {
        Word(bits)
    }

    /// Each character of a word is a letter or the blank.
    pub proof fn lemma_view(self)
        ensures
            self@.len() == 5,
            forall|i: int| 0 <= i < 5 ==> is_slot_char(#[trigger] self@[i]),
    {
        assert forall|i: int| 0 <= i < 5 implies is_slot_char(#[trigger] self@[i]) by {
            let v = slot(self.0, i as u32);
            if 1 <= v <= 26 {
                assert(is_letter(letter_at((v - 1) as u32)));
            }
        }
    }

    /// The word of five blanks.
    pub fn empty() -> (r: Word)
        ensures
            r@ == Seq::new(5, |i: int| blank()),
    {
        proof {
            assert forall|i: u32| i < 5 implies #[trigger] slot(0, i) <= 26 by {
                lemma_zero_slots(i);
            }
        }
        let r = Word(0);
        proof {
            assert forall|i: int| 0 <= i < 5 implies r@[i] == blank() by {
                lemma_zero_slots(i as u32);
            }
            assert(r@ =~= Seq::new(5, |i: int| blank()));
        }
        r
    }

    /// The word of the first five characters of `s`, each kept where it is a letter and
    /// blank otherwise; a shorter `s` leaves the last slots blank.
    pub fn new(s: &str) -> (r: Word)
        ensures
            r@ == word_of(s@),
    {
        let mut word = Self::empty();
        let n = s.unicode_len();
        let mut i: usize = 0;
        while i < n && i < 5
            invariant
                n == s@.len(),
                i <= 5,
                i <= n,
                forall|k: int| 0 <= k < 5 ==> #[trigger] word@[k] == if k < i {
                    normalize(s@[k])
                } else {
                    blank()
                },
            decreases 5 - i,
        {
            let c = s.get_char(i);
            word.set(i, c);
            i = i + 1;
        }
        assert(word@ =~= word_of(s@));
        word
    }

    /// Puts `c` in slot `i`, replacing what was there; a character that is not a letter
    /// leaves the slot blank.
    pub fn set(&mut self, i: usize, c: char)
        requires
            i < 5,
        ensures
            final(self)@ == old(self)@.update(i as int, normalize(c)),
    {
        proof {
            use_type_invariant(&*self);
        }
        let offset = (i * 5) as u32;
        let v = char_bits(c);
        let x = self.0;
        let y = (x & !(MASK << offset)) | (v << offset);
        proof {
            assert forall|j: u32| j < 5 implies #[trigger] slot(y, j) == if i as u32 == j {
                v
            } else {
                slot(x, j)
            } by {
                lemma_set_slot(x, i as u32, v, j);
            }
            lemma_set_slot(x, i as u32, v, 0);
        }
        self.0 = y;
        proof {
            if is_letter(c) {
                lemma_char_code(c);
            }
            assert(self@ =~= old(self)@.update(i as int, normalize(c)));
        }
    }

    /// Whether some slot holds the letter `c`; a character that is not a letter is never found.
    pub fn contains(&self, c: char) -> (r: bool)
        ensures
            r == (is_letter(c) && self@.contains(c)),
    {
        proof {
            use_type_invariant(self);
        }
        if c < 'a' || c > 'z' {
            return false;
        }
        assert(is_letter(c));
        let cbits = char_bits(c);
        let mut k: usize = 0;
        while k < 5
            invariant
                k <= 5,
                cbits == code(c),
                is_letter(c),
                forall|j: int| 0 <= j < k ==> self@[j] != normalize(c),
            decreases 5 - k,
        {
            let b = (self.0 >> ((k * 5) as u32)) & MASK;
            assert(b == slot(self.0, k as u32));
            proof {
                use_type_invariant(self);
                lemma_code_char(b);
                if is_letter(c) {
                    lemma_char_code(c);
                }
            }
            if b == cbits {
                assert(self@[k as int] == c);
                return true;
            }
            k = k + 1;
        }
        false
    }

    /// The character in slot `i`.
    pub fn at(&self, i: usize) -> (r: char)
        requires
            i < 5,
        ensures
            r == self@[i as int],
    {
        proof {
            use_type_invariant(self);
        }
        let bits = (self.0 >> ((i * 5) as u32)) & MASK;
        assert(bits == slot(self.0, i as u32));
        char_from_bits(bits)
    }

    /// The set of the letters of the word.
    pub fn charset(&self) -> (r: Charset)
        ensures
            r@ == letters_of(self@),
    {
        let mut set = Charset::none();
        let mut i: usize = 0;
        while i < 5
            invariant
                i <= 5,
                set@ == letters_of(self@.subrange(0, i as int)),
            decreases 5 - i,
        {
            let c = self.at(i);
            set.insert(c);
            proof {
                let s = self@.subrange(0, i as int);
                let t = self@.subrange(0, i + 1 as int);
                assert(t == s.push(c));
                assert forall|d: char| t.contains(d) <==> (s.contains(d) || d == c) by {
                    if s.contains(d) {
                        let j = choose|j: int| 0 <= j < s.len() && s[j] == d;
                        assert(t[j] == d);
                    }
                    if d == c {
                        assert(t[i as int] == d);
                    }
                }
                assert(set@ =~= letters_of(t));
            }
            i = i + 1;
        }
        assert(self@.subrange(0, 5) == self@);
        set
    }

    /// The packed form of the word.
    pub fn bits(&self) -> (r: u32)
        ensures
            r == packed(self@),
    {
        proof {
            use_type_invariant(self);
            lemma_slots_sum(self.0);
            assert forall|i: u32| i < 5 implies code(self@[i as int]) == slot(self.0, i) by {
                lemma_code_char(slot(self.0, i));
            }
            assert(code(self@[0]) == slot(self.0, 0));
            assert(code(self@[1]) == slot(self.0, 1));
            assert(code(self@[2]) == slot(self.0, 2));
            assert(code(self@[3]) == slot(self.0, 3));
            assert(code(self@[4]) == slot(self.0, 4));
        }
        self.0
    }

    /// The key that orders words lexically by their characters, the blank before `a`.
    pub fn lex_key(&self) -> (r: u32)
        ensures
            r == lex_key(self@),
    {
        proof {
            use_type_invariant(self);
        }
        let s0 = char_bits(self.at(0));
        let s1 = char_bits(self.at(1));
        let s2 = char_bits(self.at(2));
        let s3 = char_bits(self.at(3));
        let s4 = char_bits(self.at(4));
        s0 * 0x10_0000 + s1 * 0x8000 + s2 * 0x400 + s3 * 0x20 + s4
    }

    /// The five characters of the word, one by one.
    pub fn iter(&self) -> (r: WordIter)
        ensures
            r@ == self@,
    {
        WordIter::new(*self)
    }

    /// The word as text of five characters, with a space for each blank slot.
    pub fn to_string(&self) -> (r: String)
        ensures
            r@ == self@,
    {
        let mut chars: Vec<char> = Vec::new();
        let mut i: usize = 0;
        while i < 5
            invariant
                i <= 5,
                chars@ == self@.subrange(0, i as int),
            decreases 5 - i,
        {
            chars.push(self.at(i));
            i = i + 1;
        }
        assert(chars@ == self@);
        string_of(&chars)
    }
}

impl PartialEq for Word {
    fn eq(&self, other: &Word) -> (r: bool) {
        proof {
            use_type_invariant(self);
            use_type_invariant(other);
            lemma_pack_unpack(self.0);
            lemma_pack_unpack(other.0);
        }
        self.0 == other.0
    }
}

impl vstd::std_specs::cmp::PartialEqSpecImpl for Word {
    open spec fn obeys_eq_spec() -> bool {
        true
    }

    open spec fn eq_spec(&self, other: &Word) -> bool {
        self@ == other@
    }
}

impl Eq for Word {
}

/// Relies on `String`'s `FromIterator<&char>`: the text holds the characters in order.
#[verifier::external_body]
pub(crate) fn string_of(chars: &Vec<char>) -> (r: String)
    ensures
        r@ == chars@,
{
    chars.iter().collect()
}

/// The characters of a word that are still to come.
pub struct WordIter {
    word: Word,
    pos: usize,
}

impl View for WordIter {
    type V = Seq<char>;

    closed spec fn view(&self) -> Seq<char> {
        self.word@.subrange(self.pos as int, 5)
    }
}

impl WordIter {
    #[verifier::type_invariant]
    spec fn inv(self) -> bool {
        self.pos <= 5
    }

    /// The characters of `word`, from the first slot.
    pub fn new(word: Word) -> (r: WordIter)
        ensures
            r@ == word@,
    {
        let r = WordIter { word, pos: 0 };
        assert(r@ =~= word@);
        r
    }

    /// The next character, or `None` after the fifth.
    pub fn next(&mut self) -> (r: Option<char>)
        ensures
            old(self)@.len() == 0 ==> r == None::<char> && final(self)@ == old(self)@,
            old(self)@.len() > 0 ==> r == Some(old(self)@[0]) && final(self)@ == old(
                self,
            )@.drop_first(),
    {
        proof {
            use_type_invariant(&*self);
        }
        if self.pos >= 5 {
            return None;
        }
        let c = self.word.at(self.pos);
        self.pos = self.pos + 1;
        assert(self@ =~= old(self)@.drop_first());
        Some(c)
    }
}

/// The letter set of a word does not depend on the order of its characters: words whose
/// characters are the same up to order have the same letters.
pub proof fn lemma_letters_order_free(a: Word, b: Word)
    requires
        a@.to_multiset() == b@.to_multiset(),
    ensures
        letters_of(a@) == letters_of(b@),
{
    assert forall|c: char| a@.contains(c) <==> b@.contains(c) by {
        vstd::seq_lib::to_multiset_contains(a@, c);
        vstd::seq_lib::to_multiset_contains(b@, c);
    }
    assert(letters_of(a@) =~= letters_of(b@));
}

} // verus!
