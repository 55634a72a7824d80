//! Lengths of the lines of a text.

use vstd::prelude::*;

verus! {

/// No newline character stands at the positions from `from` up to, not
/// including, `to`.
pub open spec fn newline_free(text: Seq<char>, from: int, to: int) -> bool {
    forall|k: int| from <= k < to ==> text[k] != '\n'
}

/// No line of `text` is longer than `limit` characters: every stretch
/// without a newline character has at most `limit` characters.
pub open spec fn lines_within(text: Seq<char>, limit: nat) -> bool {
    forall|from: int, to: int|
        0 <= from <= to <= text.len() && #[trigger] newline_free(text, from, to) ==> to - from
            <= limit
}

/// The text is empty or its last character is a newline.
pub open spec fn ends_lines(text: Seq<char>) -> bool {
    text.len() > 0 ==> text.last() == '\n'
}

/// A text of at most `limit` characters followed by a newline is one line
/// within the limit.
pub proof fn lemma_one_line(line: Seq<char>, limit: nat)
    requires
        line.len() <= limit,
    ensures
        lines_within(line + seq!['\n'], limit),
        ends_lines(line + seq!['\n']),
        (line + seq!['\n']).len() > 0,
{
    let text = line + seq!['\n'];
    assert forall|from: int, to: int|
        0 <= from <= to <= text.len() && #[trigger] newline_free(text, from, to) implies to - from
        <= limit by {
        if to == text.len() && from < to {
            assert(text[to - 1] == '\n');
        }
    }
}

/// Lines within a limit, put behind lines within the same limit, stay within it.
pub proof fn lemma_lines_concat(first: Seq<char>, second: Seq<char>, limit: nat)
    requires
        lines_within(first, limit),
        ends_lines(first),
        lines_within(second, limit),
    ensures
        lines_within(first + second, limit),
        ends_lines(second) && second.len() > 0 ==> ends_lines(first + second),
        second.len() == 0 ==> first + second == first,
{
    let text = first + second;
    let cut = first.len() as int;
    assert forall|from: int, to: int|
        0 <= from <= to <= text.len() && #[trigger] newline_free(text, from, to) implies to - from
        <= limit by {
        if to <= cut {
            assert forall|k: int| from <= k < to implies first[k] != '\n' by {
                assert(text[k] == first[k]);
            }
            assert(newline_free(first, from, to));
        } else if from >= cut {
            assert forall|k: int| from - cut <= k < to - cut implies second[k] != '\n' by {
                assert(text[k + cut] == second[k]);
            }
            assert(newline_free(second, from - cut, to - cut));
        } else {
            assert(text[cut - 1] == first.last());
        }
    }
    if second.len() == 0 {
        assert(first + second =~= first);
    }
}

} // verus!
