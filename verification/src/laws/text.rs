//! Laws of texts.

use vstd::prelude::*;

verus! {

/// Does `part` stand at index `i` of `s`?
pub open spec fn stands(s: Seq<char>, part: Seq<char>, i: int) -> bool {
    0 <= i && i + part.len() <= s.len() && s.subrange(i, i + part.len() as int) == part
}

/// A part is found where it first stands, and nowhere where it stands
/// nowhere.
pub proof fn lemma_parts_are_found(s: Seq<char>, part: Seq<char>, from: int)
    requires
        0 <= from,
    ensures
        match crate::text::find_from(s, part, from) {
            Some(i) => from <= i && stands(s, part, i) && forall|j: int|
                from <= j < i ==> !#[trigger] stands(s, part, j),
            None => forall|j: int| from <= j ==> !#[trigger] stands(s, part, j),
        },
    decreases s.len() - from + 1,
{
    if from <= s.len() {
        assert(crate::text::begins_with(s.skip(from), part) <==> stands(s, part, from)) by {
            if from + part.len() <= s.len() {
                assert(s.skip(from).take(part.len() as int) =~= s.subrange(
                    from,
                    from + part.len() as int,
                ));
            }
        }
        if !crate::text::begins_with(s.skip(from), part) {
            lemma_parts_are_found(s, part, from + 1);
        }
    }
}

/// A text holds a part exactly where the part stands somewhere in it.
pub proof fn lemma_held_parts_stand(s: Seq<char>, part: Seq<char>)
    ensures
        crate::text::holds_text(s, part) <==> exists|i: int| #[trigger] stands(s, part, i),
{
    lemma_parts_are_found(s, part, 0);
}

/// Trimming takes one kind of character off the end and nothing else.
pub proof fn lemma_trimmed(s: Seq<char>, c: char)
    ensures
        ({
            let t = crate::text::trim_last(s, c);
            &&& t.len() <= s.len()
            &&& t == s.take(t.len() as int)
            &&& t.len() > 0 ==> t.last() != c
            &&& forall|i: int| t.len() <= i < s.len() ==> #[trigger] s[i] == c
        }),
    decreases s.len(),
{
    if s.len() > 0 && s.last() == c {
        lemma_trimmed(s.drop_last(), c);
        let t = crate::text::trim_last(s, c);
        assert(t =~= s.take(t.len() as int));
        assert forall|i: int| t.len() <= i < s.len() implies #[trigger] s[i] == c by {
            if i < s.len() - 1 {
                assert(s.drop_last()[i] == c);
            }
        }
    } else {
        assert(s =~= s.take(s.len() as int));
    }
}

} // verus!
