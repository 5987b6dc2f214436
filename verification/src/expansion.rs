//! Listing the segment sets that a word could light.

use vstd::prelude::*;
use crate::alphabet::{all_wires, wire_index, wire_position};
use crate::charseq::{lemma_strictly_ascending_distinct, same_chars, strictly_ascending};
use crate::model::{expand, fits, image};
use crate::segment::Segment;
use crate::sevensegdecoder::SevenSegDecoder;
use crate::wiring::candidates_of;

verus! {

/// `image` replaces each letter of `word`, position by position, with one of
/// the candidates of that wire.
pub open spec fn substitutes(candidates: Seq<Set<char>>, word: Seq<char>, image: Seq<char>) -> bool {
    &&& image.len() == word.len()
    &&& forall|i: int|
        0 <= i < word.len() ==> candidates[wire_index(word[i])].contains(#[trigger] image[i])
}

/// The sets of segments that the substitutions of `word` light, whatever
/// their size.
pub open spec fn images(candidates: Seq<Set<char>>, word: Seq<char>) -> Set<Set<char>> {
    Set::new(
        |t: Set<char>|
            exists|image: Seq<char>| #[trigger]
                substitutes(candidates, word, image) && image.to_set() == t,
    )
}

/// The images of `word` that light as many segments as `word` has letters.
pub open spec fn expand_word(candidates: Seq<Set<char>>, word: Seq<char>) -> Set<Set<char>> {
    Set::new(|t: Set<char>| images(candidates, word).contains(t) && t.len() == word.len())
}

/// The sets that the words of a list spell.
pub open spec fn shown(list: Seq<Vec<char>>) -> Set<Set<char>> {
    Set::new(|t: Set<char>| exists|i: int| 0 <= i < list.len() && (#[trigger] list[i])@.to_set() == t)
}

/// Every word of the list is in sorted spelling, and none occurs twice.
pub open spec fn tidy(list: Seq<Vec<char>>) -> bool {
    &&& forall|i: int| 0 <= i < list.len() ==> strictly_ascending((#[trigger] list[i])@)
    &&& forall|i: int, j: int|
        0 <= i < j < list.len() ==> (#[trigger] list[i])@ != (#[trigger] list[j])@
}

/// The sets of `from`, each grown by one member of `by`.
pub open spec fn grown(from: Set<Set<char>>, by: Set<char>) -> Set<Set<char>> {
    Set::new(
        |t: Set<char>|
            exists|t0: Set<char>, s: char|
                from.contains(t0) && by.contains(s) && t == #[trigger] t0.insert(s),
    )
}

proof fn lemma_images_of_nothing(candidates: Seq<Set<char>>)
    ensures
        images(candidates, Seq::empty()) == set![Set::<char>::empty()],
{
    let none = Seq::<char>::empty();
    assert(substitutes(candidates, none, none));
    assert(none.to_set() =~= Set::<char>::empty());
    assert forall|t: Set<char>| images(candidates, none).contains(t) implies t == Set::<char>::empty() by {
        let image = choose|image: Seq<char>| #[trigger]
            substitutes(candidates, none, image) && image.to_set() == t;
        assert(image =~= none);
    }
    assert(images(candidates, none) =~= set![Set::<char>::empty()]);
}

proof fn lemma_images_grow(candidates: Seq<Set<char>>, word: Seq<char>, k: int)
    requires
        0 <= k < word.len(),
    ensures
        images(candidates, word.take(k + 1)) == grown(
            images(candidates, word.take(k)),
            candidates[wire_index(word[k])],
        ),
{
    let short = word.take(k);
    let long = word.take(k + 1);
    let by = candidates[wire_index(word[k])];
    let lhs = images(candidates, long);
    let rhs = grown(images(candidates, short), by);
    assert forall|t: Set<char>| lhs.contains(t) implies rhs.contains(t) by {
        let image = choose|image: Seq<char>| #[trigger]
            substitutes(candidates, long, image) && image.to_set() == t;
        let head = image.drop_last();
        let s = image.last();
        assert(image =~= head.push(s));
        head.lemma_push_to_set_commute(s);
        assert(substitutes(candidates, short, head)) by {
            assert forall|i: int| 0 <= i < short.len() implies candidates[wire_index(
                short[i],
            )].contains(#[trigger] head[i]) by {
                assert(head[i] == image[i]);
                assert(long[i] == short[i]);
            }
        }
        assert(images(candidates, short).contains(head.to_set()));
        assert(by.contains(image[k]));
        assert(t == head.to_set().insert(s));
    }
    assert forall|t: Set<char>| rhs.contains(t) implies lhs.contains(t) by {
        let (t0, s) = choose|t0: Set<char>, s: char|
            images(candidates, short).contains(t0) && by.contains(s) && t == #[trigger] t0.insert(s);
        let head = choose|image: Seq<char>| #[trigger]
            substitutes(candidates, short, image) && image.to_set() == t0;
        let image = head.push(s);
        head.lemma_push_to_set_commute(s);
        assert(substitutes(candidates, long, image)) by {
            assert forall|i: int| 0 <= i < long.len() implies candidates[wire_index(
                long[i],
            )].contains(#[trigger] image[i]) by {
                if i < k {
                    assert(image[i] == head[i]);
                    assert(long[i] == short[i]);
                }
            }
        }
        assert(image.to_set() == t);
    }
    assert(lhs =~= rhs);
}

/// For a word without a repeated letter the images of its spelling are the
/// images of its set of wires: the order of the letters plays no part.
pub proof fn lemma_expand_word(candidates: Seq<Set<char>>, word: Seq<char>)
    requires
        word.no_duplicates(),
    ensures
        expand_word(candidates, word) == expand(candidates, word.to_set()),
{
    let on = word.to_set();
    word.unique_seq_to_set();
    let lhs = expand_word(candidates, word);
    let rhs = expand(candidates, on);
    assert forall|t: Set<char>| lhs.contains(t) implies rhs.contains(t) by {
        let img = choose|img: Seq<char>| #[trigger] substitutes(candidates, word, img) && img.to_set() == t;
        let sub = Map::new(|w: char| word.contains(w), |w: char| img[word.index_of(w)]);
        assert forall|w: char| on.contains(w) implies sub.dom().contains(w) && candidates[wire_index(
            w,
        )].contains(#[trigger] sub[w]) by {
            let i = word.index_of(w);
            assert(word[i] == w);
            assert(candidates[wire_index(word[i])].contains(img[i]));
        }
        assert(fits(candidates, on, sub));
        assert forall|s: char| t.contains(s) <==> image(on, sub).contains(s) by {
            if t.contains(s) {
                let i = choose|i: int| 0 <= i < img.len() && img[i] == s;
                let w = word[i];
                assert(on.contains(w));
                assert(word[word.index_of(w)] == w);
                assert(word.index_of(w) == i);
                assert(sub[w] == s);
            }
            if image(on, sub).contains(s) {
                let w = choose|w: char| on.contains(w) && #[trigger] sub[w] == s;
                let i = word.index_of(w);
                assert(word[i] == w);
                assert(img[i] == s);
            }
        }
        assert(t =~= image(on, sub));
        vstd::seq_lib::seq_to_set_is_finite(img);
    }
    assert forall|t: Set<char>| rhs.contains(t) implies lhs.contains(t) by {
        let sub = choose|sub: Map<char, char>| #[trigger]
            fits(candidates, on, sub) && t == image(on, sub) && t.finite() && t.len() == on.len();
        let img = Seq::new(word.len(), |i: int| sub[word[i]]);
        assert forall|i: int| 0 <= i < word.len() implies candidates[wire_index(word[i])].contains(
            #[trigger] img[i],
        ) by {
            assert(on.contains(word[i]));
            assert(candidates[wire_index(word[i])].contains(sub[word[i]]));
        }
        assert(substitutes(candidates, word, img));
        assert forall|s: char| t.contains(s) <==> img.to_set().contains(s) by {
            if t.contains(s) {
                let w = choose|w: char| on.contains(w) && #[trigger] sub[w] == s;
                let i = word.index_of(w);
                assert(word[i] == w);
                assert(img[i] == s);
            }
            if img.contains(s) {
                let i = choose|i: int| 0 <= i < img.len() && img[i] == s;
                assert(on.contains(word[i]));
                assert(sub[word[i]] == s);
            }
        }
        assert(img.to_set() =~= t);
    }
    assert(lhs =~= rhs);
}

/// Whether `word` is in the list.
pub(crate) fn listed(list: &Vec<Vec<char>>, word: &Vec<char>) -> (r: bool)
    ensures
        r == exists|i: int| 0 <= i < list.len() && (#[trigger] list[i])@ == word@,
{
    let mut i: usize = 0;
    while i < list.len()
        invariant
            i <= list.len(),
            forall|k: int| 0 <= k < i ==> (#[trigger] list[k])@ != word@,
        decreases list.len() - i,
    {
        if same_chars(&list[i], word) {
            return true;
        }
        i += 1;
    }
    false
}

/// Adds to `list` the word `base` grown by each candidate in turn, in sorted
/// spelling, unless the list holds it already.
fn grow_word(list: &mut Vec<Vec<char>>, base: &Vec<char>, candidates: &Vec<char>)
    requires
        tidy(old(list)@),
    ensures
        tidy(final(list)@),
        shown(final(list)@) == shown(old(list)@).union(
            grown(set![base@.to_set()], candidates@.to_set()),
        ),
{
    let ghost start = shown(list@);
    let mut j: usize = 0;
    while j < candidates.len()
        invariant
            j <= candidates.len(),
            tidy(list@),
            shown(list@) == start.union(
                grown(set![base@.to_set()], candidates@.take(j as int).to_set()),
            ),
        decreases candidates.len() - j,
    {
        let mut fullstr = base.clone();
        fullstr.push(candidates[j]);
        proof {
            base@.lemma_push_to_set_commute(candidates@[j as int]);
        }
        SevenSegDecoder::sort_chars(&mut fullstr);
        let ghost added = base@.to_set().insert(candidates@[j as int]);
        assert(fullstr@.to_set() == added);
        let ghost before = list@;
        let known = listed(list, &fullstr);
        if !known {
            list.push(fullstr);
        }
        proof {
            let seen = candidates@.take(j as int);
            let seen_now = candidates@.take(j + 1);
            assert(seen_now =~= seen.push(candidates@[j as int]));
            seen.lemma_push_to_set_commute(candidates@[j as int]);
            let want = start.union(grown(set![base@.to_set()], seen_now.to_set()));
            assert forall|t: Set<char>| shown(list@).contains(t) implies want.contains(t) by {
                let i = choose|i: int| 0 <= i < list.len() && (#[trigger] list[i])@.to_set() == t;
                if i < before.len() {
                    assert(before[i] == list[i]);
                    assert(shown(before).contains(t));
                    if !start.contains(t) {
                        let (t0, s) = choose|t0: Set<char>, s: char|
                            set![base@.to_set()].contains(t0) && seen.to_set().contains(s) && t
                                == #[trigger] t0.insert(s);
                        assert(seen_now.to_set().contains(s));
                        assert(t == t0.insert(s));
                    }
                } else {
                    assert(t == added);
                    assert(set![base@.to_set()].contains(base@.to_set()));
                    assert(seen_now.to_set().contains(candidates@[j as int]));
                    assert(t == base@.to_set().insert(candidates@[j as int]));
                }
            }
            assert forall|t: Set<char>| want.contains(t) implies shown(list@).contains(t) by {
                if shown(before).contains(t) {
                    let i = choose|i: int| 0 <= i < before.len() && (#[trigger] before[i])@.to_set() == t;
                    assert(list[i] == before[i]);
                } else {
                    let (t0, s) = choose|t0: Set<char>, s: char|
                        set![base@.to_set()].contains(t0) && seen_now.to_set().contains(s) && t
                            == #[trigger] t0.insert(s);
                    if seen.to_set().contains(s) {
                        assert(t == t0.insert(s));
                        assert(grown(set![base@.to_set()], seen.to_set()).contains(t));
                        assert(false);
                    }
                    assert(s == candidates@[j as int]);
                    assert(t == added);
                    if known {
                        let i = choose|i: int| 0 <= i < before.len() && (#[trigger] before[i])@ == fullstr@;
                        assert(before[i]@.to_set() == t);
                        assert(false);
                    }
                    assert(list[list.len() - 1]@.to_set() == t);
                }
            }
            assert(shown(list@) =~= want);
            if !known {
                assert forall|a: int, b: int| 0 <= a < b < list.len() implies (#[trigger] list[a])@ != (
                #[trigger] list[b])@ by {
                    if b < before.len() {
                        assert(list[a] == before[a] && list[b] == before[b]);
                    } else {
                        assert(list[a] == before[a]);
                    }
                }
            }
        }
        j += 1;
    }
    proof {
        assert(candidates@.take(j as int) =~= candidates@);
    }
}

proof fn lemma_grown_more(from: Seq<Vec<char>>, i: int, by: Set<char>)
    requires
        0 <= i < from.len(),
    ensures
        grown(shown(from.take(i + 1)), by) == grown(shown(from.take(i)), by).union(
            grown(set![from[i]@.to_set()], by),
        ),
{
    let short = from.take(i);
    let long = from.take(i + 1);
    let lhs = grown(shown(long), by);
    let rhs = grown(shown(short), by).union(grown(set![from[i]@.to_set()], by));
    assert forall|t: Set<char>| lhs.contains(t) implies rhs.contains(t) by {
        let (t0, s) = choose|t0: Set<char>, s: char|
            shown(long).contains(t0) && by.contains(s) && t == #[trigger] t0.insert(s);
        let k = choose|k: int| 0 <= k < long.len() && (#[trigger] long[k])@.to_set() == t0;
        if k < i {
            assert(short[k] == long[k]);
            assert(shown(short).contains(t0));
            assert(t == t0.insert(s));
        } else {
            assert(set![from[i]@.to_set()].contains(t0));
            assert(t == t0.insert(s));
        }
    }
    assert forall|t: Set<char>| rhs.contains(t) implies lhs.contains(t) by {
        if grown(shown(short), by).contains(t) {
            let (t0, s) = choose|t0: Set<char>, s: char|
                shown(short).contains(t0) && by.contains(s) && t == #[trigger] t0.insert(s);
            let k = choose|k: int| 0 <= k < short.len() && (#[trigger] short[k])@.to_set() == t0;
            assert(long[k] == short[k]);
            assert(shown(long).contains(t0));
            assert(t == t0.insert(s));
        } else {
            let (t0, s) = choose|t0: Set<char>, s: char|
                set![from[i]@.to_set()].contains(t0) && by.contains(s) && t == #[trigger] t0.insert(s);
            assert(long[i] == from[i]);
            assert(shown(long).contains(t0));
            assert(t == t0.insert(s));
        }
    }
    assert(lhs =~= rhs);
}

impl SevenSegDecoder {
    /// Every set of segments that the word `cipher` could light, given the
    /// candidates of its wires: each letter is replaced by one of its wire's
    /// candidates, in every combination, and the results that light as many
    /// segments as `cipher` has letters are kept, each once, in sorted
    /// spelling.
    pub fn all_possibilities(cipher: &Vec<char>, segments: &Vec<Segment>) -> (r: Vec<Vec<char>>)
        requires
            segments.len() == 7,
            all_wires(cipher@),
        ensures
            tidy(r@),
            shown(r@) == expand_word(candidates_of(segments@), cipher@),
            cipher@.no_duplicates() ==> shown(r@) == expand(candidates_of(segments@), cipher@.to_set()),
            forall|i: int| 0 <= i < r.len() ==> (#[trigger] r[i])@.len() == cipher@.len(),
    {
        let ghost wiring = candidates_of(segments@);
        proof {
            if cipher@.no_duplicates() {
                lemma_expand_word(wiring, cipher@);
            }
        }
        let mut tmpvec: Vec<Vec<char>> = Vec::new();
        tmpvec.push(Vec::new());
        proof {
            lemma_images_of_nothing(wiring);
            assert(cipher@.take(0) =~= Seq::<char>::empty());
            assert(tmpvec@[0]@.to_set() =~= Set::<char>::empty());
            assert(shown(tmpvec@) =~= set![Set::<char>::empty()]);
        }
        let mut k: usize = 0;
        while k < cipher.len()
            invariant
                k <= cipher.len(),
                segments.len() == 7,
                all_wires(cipher@),
                wiring == candidates_of(segments@),
                tidy(tmpvec@),
                shown(tmpvec@) == images(wiring, cipher@.take(k as int)),
            decreases cipher.len() - k,
        {
            let at = wire_position(cipher[k]);
            let mut newvec: Vec<Vec<char>> = Vec::new();
            let ghost by = segments[at as int]@;
            proof {
                assert(shown(tmpvec@.take(0)) =~= Set::<Set<char>>::empty());
                assert(grown(shown(tmpvec@.take(0)), by) =~= Set::<Set<char>>::empty());
                assert(shown(newvec@) =~= Set::<Set<char>>::empty());
            }
            let mut i: usize = 0;
            while i < tmpvec.len()
                invariant
                    i <= tmpvec.len(),
                    at < segments.len(),
                    by == segments[at as int]@,
                    tidy(newvec@),
                    shown(newvec@) == grown(shown(tmpvec@.take(i as int)), by),
                decreases tmpvec.len() - i,
            {
                proof {
                    lemma_grown_more(tmpvec@, i as int, by);
                }
                grow_word(&mut newvec, &tmpvec[i], &segments[at].candidates);
                i += 1;
            }
            proof {
                assert(tmpvec@.take(i as int) =~= tmpvec@);
                lemma_images_grow(wiring, cipher@, k as int);
            }
            tmpvec = newvec;
            k += 1;
        }
        proof {
            assert(cipher@.take(k as int) =~= cipher@);
        }
        // Only the images of full size are plausible.
        let mut cleanvec: Vec<Vec<char>> = Vec::new();
        let mut i: usize = 0;
        while i < tmpvec.len()
            invariant
                i <= tmpvec.len(),
                tidy(tmpvec@),
                tidy(cleanvec@),
                forall|a: int| 0 <= a < cleanvec.len() ==> (#[trigger] cleanvec[a])@.len() == cipher@.len(),
                forall|a: int|
                    0 <= a < cleanvec.len() ==> exists|b: int|
                        0 <= b < i && (#[trigger] tmpvec[b])@ == (#[trigger] cleanvec[a])@,
                forall|b: int|
                    0 <= b < i && (#[trigger] tmpvec[b])@.len() == cipher@.len() ==> exists|a: int|
                        0 <= a < cleanvec.len() && (#[trigger] cleanvec[a])@ == tmpvec[b]@,
            decreases tmpvec.len() - i,
        {
            if tmpvec[i].len() == cipher.len() {
                let ghost before = cleanvec@;
                cleanvec.push(tmpvec[i].clone());
                proof {
                    let last = cleanvec.len() - 1;
                    assert(cleanvec[last]@ == tmpvec[i as int]@);
                    assert forall|a: int| 0 <= a < cleanvec.len() implies exists|b: int|
                        0 <= b < i + 1 && (#[trigger] tmpvec[b])@ == (#[trigger] cleanvec[a])@ by {
                        if a < last {
                            assert(cleanvec[a] == before[a]);
                            let b = choose|b: int| 0 <= b < i && (#[trigger] tmpvec[b])@ == before[a]@;
                            assert(tmpvec[b]@ == cleanvec[a]@);
                        } else {
                            assert(tmpvec[i as int]@ == cleanvec[a]@);
                        }
                    }
                    assert forall|b: int|
                        0 <= b < i + 1 && (#[trigger] tmpvec[b])@.len() == cipher@.len() implies exists|a: int|
                            0 <= a < cleanvec.len() && (#[trigger] cleanvec[a])@ == tmpvec[b]@ by {
                        if b < i {
                            let a = choose|a: int| 0 <= a < before.len() && (#[trigger] before[a])@ == tmpvec[b]@;
                            assert(cleanvec[a] == before[a]);
                        } else {
                            assert(cleanvec[last]@ == tmpvec[b]@);
                        }
                    }
                    assert forall|a: int, c: int| 0 <= a < c < cleanvec.len() implies (
                    #[trigger] cleanvec[a])@ != (#[trigger] cleanvec[c])@ by {
                        if c == last {
                            assert(cleanvec[a] == before[a]);
                            let b = choose|b: int| 0 <= b < i && (#[trigger] tmpvec[b])@ == before[a]@;
                            assert(tmpvec[b]@ != tmpvec[i as int]@);
                        } else {
                            assert(cleanvec[a] == before[a] && cleanvec[c] == before[c]);
                        }
                    }
                    assert forall|a: int| 0 <= a < cleanvec.len() implies strictly_ascending(
                        (#[trigger] cleanvec[a])@,
                    ) by {
                        if a < last {
                            assert(cleanvec[a] == before[a]);
                        }
                    }
                }
            }
            i += 1;
        }
        proof {
            let want = expand_word(wiring, cipher@);
            assert forall|t: Set<char>| shown(cleanvec@).contains(t) implies want.contains(t) by {
                let a = choose|a: int| 0 <= a < cleanvec.len() && (#[trigger] cleanvec[a])@.to_set() == t;
                let b = choose|b: int| 0 <= b < i && (#[trigger] tmpvec[b])@ == cleanvec[a]@;
                assert(shown(tmpvec@).contains(t));
                lemma_strictly_ascending_distinct(cleanvec[a]@);
            }
            assert forall|t: Set<char>| want.contains(t) implies shown(cleanvec@).contains(t) by {
                assert(shown(tmpvec@).contains(t));
                let b = choose|b: int| 0 <= b < tmpvec.len() && (#[trigger] tmpvec[b])@.to_set() == t;
                lemma_strictly_ascending_distinct(tmpvec[b]@);
                let a = choose|a: int| 0 <= a < cleanvec.len() && (#[trigger] cleanvec[a])@ == tmpvec[b]@;
                assert(cleanvec[a]@.to_set() == t);
            }
            assert(shown(cleanvec@) =~= want);
        }
        cleanvec
    }
}

} // verus!
