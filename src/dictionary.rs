use vstd::prelude::*;

use rand::Rng;
use std::collections::HashSet;
use vstd::std_specs::iter::IteratorSpec;

use crate::word::{is_word_shape, lemma_pack_unpack, lemma_unpack_pack, packed, unpack, valid_packed, Word};

verus! {

broadcast use vstd::std_specs::hash::group_hash_axioms;

/// An immutable set of words, each kept in its packed form.
pub struct Dictionary(HashSet<u32>);

impl View for Dictionary {
    type V = Set<Seq<char>>;

    closed spec fn view(&self) -> Set<Seq<char>> {
        Set::new(|w: Seq<char>| is_word_shape(w) && self.0@.contains(packed(w) as u32))
    }
}

/// Relies on `rand::Rng::gen_range` with the thread-local generator: a number below `n`, drawn
/// at random.
#[verifier::external_body]
fn random_below(n: usize) -> (r: usize)
    requires
        n > 0,
    ensures
        r < n,
{
    rand::thread_rng().gen_range(0..n)
}

impl Dictionary {
    /// Every element is the packed form of a word.
    #[verifier::type_invariant]
    spec fn inv(self) -> bool {
        forall|b: u32| self.0@.contains(b) ==> valid_packed(b)
    }

    /// The dictionary of the words of `words`.
    pub fn from_words(words: &Vec<Word>) -> (r: Dictionary)
        ensures
            r@ == words@.map_values(|w: Word| w@).to_set(),
    {
        let mut set: HashSet<u32> = HashSet::new();
        let mut i: usize = 0;
        while i < words.len()
            invariant
                i <= words@.len(),
                forall|b: u32|
                    set@.contains(b) <==> exists|k: int|
                        0 <= k < i && b == packed(#[trigger] words@[k]@) as u32,
                forall|b: u32| set@.contains(b) ==> valid_packed(b),
            decreases words@.len() - i,
        {
            let w = words[i];
            let b = w.bits();
            proof {
                w.lemma_view();
                lemma_unpack_pack(w@);
            }
            set.insert(b);
            proof {
                assert forall|c: u32|
                    set@.contains(c) <==> exists|k: int|
                        0 <= k < i + 1 && c == packed(#[trigger] words@[k]@) as u32 by {
                    if c == b {
                        assert(words@[i as int] == w);
                    }
                }
            }
            i = i + 1;
        }
        let r = Dictionary(set);
        proof {
            let vs = words@.map_values(|w: Word| w@);
            let target = vs.to_set();
            assert forall|w: Seq<char>| r@.contains(w) <==> target.contains(w) by {
                if r@.contains(w) {
                    lemma_unpack_pack(w);
                    let k = choose|k: int|
                        0 <= k < words@.len() && packed(w) as u32 == packed(
                            #[trigger] words@[k]@,
                        ) as u32;
                    words@[k].lemma_view();
                    lemma_unpack_pack(words@[k]@);
                    assert(vs[k] == w);
                }
                if target.contains(w) {
                    let k = choose|k: int| 0 <= k < vs.len() && #[trigger] vs[k] == w;
                    words@[k].lemma_view();
                    assert(set@.contains(packed(words@[k]@) as u32));
                }
            }
            assert(r@ =~= target);
        }
        r
    }

    /// Whether `word` is in the dictionary.
    pub fn contains(&self, word: Word) -> (r: bool)
        ensures
            r == self@.contains(word@),
    {
        proof {
            word.lemma_view();
        }
        self.0.contains(&word.bits())
    }

    /// Every word of the dictionary once, in an order that is not specified.
    pub fn iter(&self) -> (r: Vec<Word>)
        ensures
            forall|i: int| 0 <= i < r@.len() ==> self@.contains(#[trigger] r@[i]@),
            forall|w: Seq<char>| self@.contains(w) ==> exists|i: int| 0 <= i < r@.len() && #[trigger] r@[i]@ == w,
            r@.map_values(|w: Word| w@).no_duplicates(),
    {
        proof {
            use_type_invariant(self);
        }
        let ghost all = vstd::std_specs::hash::spec_hash_keys_iter(&self.0).remaining().unref();
        let mut bits: Vec<u32> = Vec::new();
        for b in it: self.0.iter()
            invariant
                it.seq().unref() == all,
                bits@ == all.take(it.index()),
        {
            bits.push(*b);
        }
        assert(bits@ == all);
        let mut r: Vec<Word> = Vec::new();
        let mut i: usize = 0;
        while i < bits.len()
            invariant
                i <= bits@.len(),
                bits@.to_set() == self.0@,
                bits@.no_duplicates(),
                forall|b: u32| self.0@.contains(b) ==> valid_packed(b),
                r@.len() == i,
                forall|k: int| 0 <= k < i ==> #[trigger] r@[k]@ == unpack(bits@[k]),
            decreases bits@.len() - i,
        {
            let b = bits[i];
            assert(bits@.to_set().contains(b));
            r.push(Word::from_packed(b));
            i = i + 1;
        }
        proof {
            assert forall|k: int| 0 <= k < r@.len() implies self@.contains(#[trigger] r@[k]@) by {
                let b = bits@[k];
                assert(bits@.to_set().contains(b));
                r@[k].lemma_view();
                lemma_pack_unpack(b);
            }
            assert forall|w: Seq<char>| self@.contains(w) implies exists|k: int|
                0 <= k < r@.len() && #[trigger] r@[k]@ == w by {
                let b = packed(w) as u32;
                assert(bits@.to_set().contains(b));
                let k = choose|k: int| 0 <= k < bits@.len() && bits@[k] == b;
                lemma_unpack_pack(w);
                assert(r@[k]@ == w);
            }
            let vs = r@.map_values(|w: Word| w@);
            assert forall|k: int, m: int| 0 <= k < vs.len() && 0 <= m < vs.len() && k != m implies vs[k]
                != vs[m] by {
                assert(bits@.to_set().contains(bits@[k]));
                assert(bits@.to_set().contains(bits@[m]));
                lemma_pack_unpack(bits@[k]);
                lemma_pack_unpack(bits@[m]);
            }
        }
        r
    }

    /// A word of the dictionary, drawn at random.
    pub fn random(&self) -> (r: Word)
        requires
            exists|w: Seq<char>| self@.contains(w),
        ensures
            self@.contains(r@),
    {
        let words = self.iter();
        let k = random_below(words.len());
        words[k]
    }
}

} // verus!
