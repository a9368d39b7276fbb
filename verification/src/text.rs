//! Text as sequences of characters: reading the characters of a string and
//! building a string from characters.

use vstd::prelude::*;

verus! {

/// `String::push` of std appends one character to the string.
pub assume_specification[ String::push ](text: &mut String, ch: char)
    ensures
        final(text)@ == old(text)@.push(ch),
;

/// What a sequence of strings holds, as texts.
pub open spec fn texts(strings: Seq<String>) -> Seq<Seq<char>> {
    Seq::new(strings.len(), |i: int| strings[i]@)
}

/// The characters of a text, one by one.
pub fn chars_of(text: &str) -> (chars: Vec<char>)
    ensures
        chars@ == text@,
{
    let mut chars: Vec<char> = Vec::new();
    for c in it: text.chars()
        invariant
            chars@ == it.seq().take(it.index() as int),
            it.seq() == text@,
    {
        chars.push(c);
    }
    chars
}

/// The text made of the characters `chars[from..to]`.
pub fn text_of(chars: &[char], from: usize, to: usize) -> (text: String)
    requires
        from <= to <= chars.len(),
    ensures
        text@ == chars@.subrange(from as int, to as int),
{
    let mut text = String::new();
    let mut i = from;
    while i < to
        invariant
            from <= i <= to <= chars.len(),
            text@ == chars@.subrange(from as int, i as int),
        decreases to - i,
    {
        text.push(chars[i]);
        i += 1;
        proof {
            assert(chars@.subrange(from as int, i as int) =~= chars@.subrange(
                from as int,
                i - 1,
            ).push(chars@[i - 1]));
        }
    }
    text
}

/// Where the first `sep` of the text stands, or the length of the text if
/// it has none.
pub open spec fn first_sep(text: Seq<char>, sep: char) -> int
    decreases text.len(),
{
    if text.len() == 0 || text[0] == sep {
        0
    } else {
        1 + first_sep(text.drop_first(), sep)
    }
}

/// The fields of a text: what stands between its separators. A text
/// without a separator is one field, an empty text one empty field.
pub open spec fn fields(text: Seq<char>, sep: char) -> Seq<Seq<char>>
    decreases text.len(),
{
    let k = first_sep(text, sep);
    if k < 0 || k >= text.len() {
        seq![text]
    } else {
        seq![text.take(k)] + fields(text.skip(k + 1), sep)
    }
}

/// The first separator stands within the text or at its end.
pub proof fn lemma_first_sep_bounds(text: Seq<char>, sep: char)
    ensures
        0 <= first_sep(text, sep) <= text.len(),
        forall|j: int| 0 <= j < first_sep(text, sep) ==> text[j] != sep,
        first_sep(text, sep) < text.len() ==> text[first_sep(text, sep)] == sep,
    decreases text.len(),
{
    if text.len() > 0 && text[0] != sep {
        let rest = text.drop_first();
        lemma_first_sep_bounds(rest, sep);
        assert forall|j: int| 0 <= j < first_sep(text, sep) implies text[j] != sep by {
            if j > 0 {
                assert(rest[j - 1] == text[j]);
            }
        }
    }
}

/// `first_sep` finds the place before which no separator stands and at
/// which one does, or the text ends.
pub proof fn lemma_first_sep_is(text: Seq<char>, sep: char, k: int)
    requires
        0 <= k <= text.len(),
        forall|j: int| 0 <= j < k ==> text[j] != sep,
        k < text.len() ==> text[k] == sep,
    ensures
        first_sep(text, sep) == k,
    decreases text.len(),
{
    if k > 0 {
        let rest = text.drop_first();
        assert forall|j: int| 0 <= j < k - 1 implies rest[j] != sep by {
            assert(rest[j] == text[j + 1]);
        }
        lemma_first_sep_is(rest, sep, k - 1);
    }
}

/// Splits the text at each `sep`, as `str::split` does.
pub fn split_fields(chars: &[char], sep: char) -> (parts: Vec<String>)
    ensures
        texts(parts@) == fields(chars@, sep),
{
    let mut parts: Vec<String> = Vec::new();
    let mut start: usize = 0;
    let mut i: usize = 0;
    proof {
        assert(chars@.skip(0) =~= chars@);
        assert(texts(parts@) + fields(chars@.skip(0), sep) =~= fields(chars@, sep));
    }
    while i < chars.len()
        invariant
            start <= i <= chars.len(),
            forall|j: int| start <= j < i ==> chars@[j] != sep,
            texts(parts@) + fields(chars@.skip(start as int), sep) == fields(chars@, sep),
        decreases chars.len() - i,
    {
        if chars[i] == sep {
            let ghost rest = chars@.skip(start as int);
            let ghost before = parts@;
            let ghost width = i - start;
            proof {
                assert forall|j: int| 0 <= j < i - start implies rest[j] != sep by {
                    assert(rest[j] == chars@[start + j]);
                }
                lemma_first_sep_is(rest, sep, i - start);
                assert(rest.take(i - start) =~= chars@.subrange(start as int, i as int));
                assert(rest.skip(i - start + 1) =~= chars@.skip(i + 1));
            }
            parts.push(text_of(chars, start, i));
            start = i + 1;
            proof {
                assert(texts(parts@) =~= texts(before) + seq![rest.take(width)]);
                assert(texts(parts@) + fields(chars@.skip(start as int), sep) =~= texts(before)
                    + fields(rest, sep));
            }
        }
        i += 1;
    }
    let ghost rest = chars@.skip(start as int);
    let ghost before = parts@;
    proof {
        assert forall|j: int| 0 <= j < rest.len() implies rest[j] != sep by {
            assert(rest[j] == chars@[start + j]);
        }
        lemma_first_sep_is(rest, sep, rest.len() as int);
        assert(rest =~= chars@.subrange(start as int, chars@.len() as int));
    }
    parts.push(text_of(chars, start, chars.len()));
    proof {
        assert(texts(parts@) =~= texts(before) + seq![rest]);
    }
    parts
}

} // verus!
