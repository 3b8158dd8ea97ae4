use vstd::prelude::*;

use crate::word::string_of;

verus! {

/// The mask with one bit for each of the 26 letters.
pub const ALL_BITS: u32 = 0x3ff_ffff;

/// True of the lowercase letters `a` through `z`.
pub open spec fn is_letter(c: char) -> bool {
    'a' <= c && c <= 'z'
}

/// Position of a letter in the alphabet, from 0 for `a` to 25 for `z`.
pub open spec fn letter_index(c: char) -> u32 {
    (c as u32 - 97) as u32
}

/// The letter at position `k` of the alphabet.
pub open spec fn letter_at(k: u32) -> char {
    (97 + k) as char
}

/// The set of all 26 letters.
pub open spec fn letters() -> Set<char> {
    Set::new(|c: char| is_letter(c))
}

/// The letters among the characters of `s`.
pub open spec fn letters_of(s: Seq<char>) -> Set<char> {
    Set::new(|c: char| is_letter(c) && s.contains(c))
}

/// `{c}` for a letter, and the empty set for any other character.
pub open spec fn letter_set(c: char) -> Set<char> {
    if is_letter(c) {
        set![c]
    } else {
        Set::empty()
    }
}

/// The 26 letters in alphabetical order.
pub open spec fn alphabet() -> Seq<char> {
    Seq::new(26, |k: int| letter_at(k as u32))
}

/// Whether bit `i` of `bits` is set.
pub open spec fn has_bit(bits: u32, i: u32) -> bool {
    (bits >> i) & 1 == 1
}

/// A set of lowercase letters, one bit per letter.
#[derive(Clone, Copy, PartialEq, Eq, Structural, Debug)]
pub struct Charset(u32);

impl View for Charset {
    type V = Set<char>;

    closed spec fn view(&self) -> Set<char> {
        Set::new(|c: char| is_letter(c) && has_bit(self.0, letter_index(c)))
    }
}

proof fn lemma_letter_roundtrip(c: char)
    requires
        is_letter(c),
    ensures
        letter_index(c) < 26,
        letter_at(letter_index(c)) == c,
{
    vstd::utf8::char_u32_cast(c, c as u32);
}

proof fn lemma_index_letter(k: u32)
    requires
        k < 26,
    ensures
        is_letter(letter_at(k)),
        letter_index(letter_at(k)) == k,
{
}

proof fn lemma_bits(x: u32, y: u32, j: u32)
    by (bit_vector)
    requires
        j < 26,
    ensures
        has_bit(x & y, j) == (has_bit(x, j) && has_bit(y, j)),
        has_bit(x | y, j) == (has_bit(x, j) || has_bit(y, j)),
        has_bit(x ^ 0x3ff_ffff, j) == !has_bit(x, j),
        y < 26 ==> has_bit(1u32 << y, j) == (j == y),
        has_bit(0, j) == false,
        has_bit(0x3ff_ffff, j),
{
}

proof fn lemma_bounds(x: u32, y: u32)
    by (bit_vector)
    requires
        x <= 0x3ff_ffff,
        y <= 0x3ff_ffff,
    ensures
        x & y <= 0x3ff_ffff,
        x | y <= 0x3ff_ffff,
        x ^ 0x3ff_ffff <= 0x3ff_ffff,
        x & (y ^ 0x3ff_ffff) <= 0x3ff_ffff,
        x & y == y <==> y & (x ^ 0x3ff_ffff) == 0,
        x ^ 0x3ff_ffff ^ 0x3ff_ffff == x,
{
}

proof fn lemma_shift_bound(k: u32)
    by (bit_vector)
    requires
        k < 26,
    ensures
        1u32 << k <= 0x3ff_ffff,
{
}

proof fn lemma_shift_step(x: u32, j: u32)
    by (bit_vector)
    requires
        x <= 0x3ff_ffff,
        j <= 26,
        x >> j != 0,
        !has_bit(x, j),
    ensures
        j < 26,
        x >> ((j + 1) as u32) != 0,
{
}

/// A nonzero mask of letters has a set bit at or above `j`.
proof fn lemma_nonzero_has_bit(x: u32, j: u32)
    requires
        x <= 0x3ff_ffff,
        j <= 26,
        x >> j != 0,
    ensures
        exists|k: u32| j <= k < 26 && has_bit(x, k),
    decreases 26 - j,
{
    if has_bit(x, j) {
        assert(j < 26) by (bit_vector)
            requires
                x <= 0x3ff_ffff,
                j <= 26,
                has_bit(x, j),
        ;
    } else {
        lemma_shift_step(x, j);
        lemma_nonzero_has_bit(x, (j + 1) as u32);
    }
}

impl Charset {
    /// The bound that every mask of this type keeps.
    #[verifier::type_invariant]
    spec fn inv(self) -> bool {
        self.0 <= ALL_BITS
    }

    proof fn lemma_view_and(a: u32, b: u32)
        ensures
            Charset::view_of(a & b) == Charset::view_of(a).intersect(Charset::view_of(b)),
            Charset::view_of(a | b) == Charset::view_of(a).union(Charset::view_of(b)),
            Charset::view_of(a ^ ALL_BITS) == letters().difference(Charset::view_of(a)),
    {
        assert forall|c: char| is_letter(c) implies (has_bit(a & b, letter_index(c)) == (has_bit(
            a,
            letter_index(c),
        ) && has_bit(b, letter_index(c)))) && (has_bit(a | b, letter_index(c)) == (has_bit(
            a,
            letter_index(c),
        ) || has_bit(b, letter_index(c)))) && (has_bit(a ^ ALL_BITS, letter_index(c)) == !has_bit(
            a,
            letter_index(c),
        )) by {
            lemma_letter_roundtrip(c);
            lemma_bits(a, b, letter_index(c));
        }
        assert(Charset::view_of(a & b) =~= Charset::view_of(a).intersect(Charset::view_of(b)));
        assert(Charset::view_of(a | b) =~= Charset::view_of(a).union(Charset::view_of(b)));
        assert(Charset::view_of(a ^ ALL_BITS) =~= letters().difference(Charset::view_of(a)));
    }

    /// The set of letters that a mask stands for.
    spec fn view_of(bits: u32) -> Set<char> {
        Set::new(|c: char| is_letter(c) && has_bit(bits, letter_index(c)))
    }

    proof fn lemma_view_of(self)
        ensures
            self@ == Charset::view_of(self.0),
    {
        assert(self@ =~= Charset::view_of(self.0));
    }

    /// A mask within the 26 bits stands for no letter only when it is zero.
    proof fn lemma_view_empty(x: u32)
        requires
            x <= ALL_BITS,
        ensures
            Charset::view_of(x).is_empty() <==> x == 0,
    {
        if x == 0 {
            assert forall|c: char| is_letter(c) implies !has_bit(0, letter_index(c)) by {
                lemma_letter_roundtrip(c);
                lemma_bits(0, 0, letter_index(c));
            }
            assert(Charset::view_of(x) =~= Set::empty());
        } else {
            assert(x >> 0u32 != 0) by (bit_vector)
                requires
                    x != 0,
            ;
            lemma_nonzero_has_bit(x, 0);
            let k = choose|k: u32| 0 <= k < 26 && has_bit(x, k);
            lemma_index_letter(k);
            assert(Charset::view_of(x).contains(letter_at(k)));
        }
    }

    /// A set of this type holds letters only.
    pub proof fn lemma_letters(self)
        ensures
            self@.subset_of(letters()),
    {
    }

    /// The set of all 26 letters.
    pub fn all() -> (r: Charset)
        ensures
            r@ == letters(),
    {
        proof {
            assert forall|c: char| is_letter(c) implies has_bit(ALL_BITS, letter_index(c)) by {
                lemma_letter_roundtrip(c);
                lemma_bits(0, 0, letter_index(c));
            }
            assert(Charset::view_of(ALL_BITS) =~= letters());
        }
        let r = Charset(ALL_BITS);
        proof {
            r.lemma_view_of();
        }
        r
    }

    /// The empty set.
    pub fn none() -> (r: Charset)
        ensures
            r@ == Set::<char>::empty(),
    {
        let r = Charset(0);
        proof {
            r.lemma_view_of();
            Charset::lemma_view_empty(0);
        }
        r
    }

    /// The set that holds `c` alone, or the empty set where `c` is not a letter.
    pub fn char(c: char) -> (r: Charset)
        ensures
            r@ == letter_set(c),
    {
        if c < 'a' || c > 'z' {
            return Charset::none();
        }
        let k = c as u32 - 'a' as u32;
        proof {
            lemma_shift_bound(k);
        }
        let r = Charset(1u32 << k);
        proof {
            assert forall|d: char| is_letter(d) implies has_bit(1u32 << k, letter_index(d)) == (d
                == c) by {
                lemma_letter_roundtrip(d);
                lemma_letter_roundtrip(c);
                lemma_bits(0, k, letter_index(d));
            }
            assert(r@ =~= set![c]);
        }
        r
    }

    /// The set of the letters among the characters of `chars`.
    pub fn from_str(chars: &str) -> (r: Charset)
        ensures
            r@ == letters_of(chars@),
    {
        let mut set = Charset::none();
        let n = chars.unicode_len();
        let mut i: usize = 0;
        while i < n
            invariant
                n == chars@.len(),
                i <= n,
                set@ == letters_of(chars@.subrange(0, i as int)),
            decreases n - i,
        {
            let c = chars.get_char(i);
            set.insert(c);
            proof {
                let s = chars@.subrange(0, i as int);
                let t = chars@.subrange(0, i + 1 as int);
                assert(t == s.push(c));
                assert forall|d: char| t.contains(d) <==> (s.contains(d) || d == c) by {
                    if s.contains(d) {
                        let j = choose|j: int| 0 <= j < s.len() && s[j] == d;
                        assert(t[j] == d);
                    }
                    if d == c {
                        assert(t[i as int] == d);
                    }
                }
                assert(set@ =~= letters_of(t));
            }
            i = i + 1;
        }
        assert(chars@.subrange(0, n as int) == chars@);
        set
    }

    /// Removes `c`, and returns the set as it now is.
    pub fn exclude(&mut self, c: char) -> (r: Charset)
        ensures
            final(self)@ == old(self)@.remove(c),
            r == *final(self),
    {
        proof {
            use_type_invariant(&*self);
        }
        let other = Self::char(c).inverse();
        proof {
            use_type_invariant(&other);
            lemma_bounds(self.0, other.0);
            Charset::lemma_view_and(self.0, other.0);
            self.lemma_view_of();
            other.lemma_view_of();
        }
        self.0 = self.0 & other.0;
        proof {
            self.lemma_view_of();
            assert(self@ =~= old(self)@.remove(c));
        }
        *self
    }

    /// Adds `c` where it is a letter, and returns the set as it now is.
    pub fn insert(&mut self, c: char) -> (r: Charset)
        ensures
            final(self)@ == old(self)@.union(letter_set(c)),
            r == *final(self),
    {
        proof {
            use_type_invariant(&*self);
        }
        let other = Self::char(c);
        proof {
            use_type_invariant(&other);
            lemma_bounds(self.0, other.0);
            Charset::lemma_view_and(self.0, other.0);
            self.lemma_view_of();
            other.lemma_view_of();
        }
        self.0 = self.0 | other.0;
        proof {
            self.lemma_view_of();
        }
        *self
    }

    /// The letters that are not in the set.
    pub fn inverse(&self) -> (r: Charset)
        ensures
            r@ == letters().difference(self@),
    {
        proof {
            use_type_invariant(self);
            lemma_bounds(self.0, 0);
            Charset::lemma_view_and(self.0, 0);
            self.lemma_view_of();
        }
        let r = Charset(self.0 ^ ALL_BITS);
        proof {
            r.lemma_view_of();
        }
        r
    }

    /// Whether every letter of `other` is in the set.
    pub fn contains_all(&self, other: Charset) -> (r: bool)
        ensures
            r == other@.subset_of(self@),
    {
        proof {
            use_type_invariant(self);
            use_type_invariant(&other);
            lemma_bounds(self.0, other.0);
            lemma_bounds(other.0, self.0);
            Charset::lemma_view_and(other.0, self.0 ^ ALL_BITS);
            Charset::lemma_view_and(self.0, 0);
            Charset::lemma_view_empty(other.0 & (self.0 ^ ALL_BITS));
            self.lemma_view_of();
            other.lemma_view_of();
            if other@.subset_of(self@) {
                assert(Charset::view_of(other.0 & (self.0 ^ ALL_BITS)) =~= Set::empty());
            } else {
                let c = choose|c: char| other@.contains(c) && !self@.contains(c);
                assert(Charset::view_of(other.0 & (self.0 ^ ALL_BITS)).contains(c));
            }
        }
        self.0 & other.0 == other.0
    }

    /// Whether the set and `other` have a letter in common.
    pub fn contains_any(&self, other: Charset) -> (r: bool)
        ensures
            r == !self@.disjoint(other@),
    {
        proof {
            use_type_invariant(self);
            use_type_invariant(&other);
            lemma_bounds(self.0, other.0);
            Charset::lemma_view_and(self.0, other.0);
            Charset::lemma_view_empty(self.0 & other.0);
            self.lemma_view_of();
            other.lemma_view_of();
            if self@.disjoint(other@) {
                assert(Charset::view_of(self.0 & other.0) =~= Set::empty());
            } else {
                let c = choose|c: char| self@.contains(c) && other@.contains(c);
                assert(Charset::view_of(self.0 & other.0).contains(c));
            }
        }
        self.0 & other.0 > 0
    }

    /// The letters of the set in alphabetical order, as text.
    pub fn to_string(&self) -> (r: String)
        ensures
            r@ == alphabet().filter(|c: char| self@.contains(c)),
    {
        let mut chars: Vec<char> = Vec::new();
        let mut k: u32 = 0;
        while k < 26
            invariant
                k <= 26,
                chars@ == alphabet().take(k as int).filter(|c: char| self@.contains(c)),
            decreases 26 - k,
        {
            let c = (97u8 + k as u8) as char;
            proof {
                assert(alphabet().take(k + 1 as int) == alphabet().take(k as int).push(c));
                alphabet().take(k as int).lemma_filter_push(c, |c: char| self@.contains(c));
            }
            if self.includes(c) {
                chars.push(c);
            }
            k = k + 1;
        }
        assert(alphabet().take(26) == alphabet());
        string_of(&chars)
    }

    /// Whether `c` is in the set.
    pub fn includes(&self, c: char) -> (r: bool)
        ensures
            r == self@.contains(c),
    {
        let m = Self::char(c);
        proof {
            use_type_invariant(self);
            use_type_invariant(&m);
            lemma_bounds(self.0, m.0);
            Charset::lemma_view_and(self.0, m.0);
            Charset::lemma_view_empty(self.0 & m.0);
            self.lemma_view_of();
            m.lemma_view_of();
            if self@.contains(c) {
                assert(Charset::view_of(self.0 & m.0).contains(c));
            } else {
                assert(Charset::view_of(self.0 & m.0) =~= Set::empty());
            }
        }
        self.0 & m.0 != 0
    }
}

} // verus!
