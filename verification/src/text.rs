//! Character-level helpers shared by the rest of the library.

use vstd::prelude::*;
use vstd::std_specs::iter::IteratorSpec;
use vstd::string::StringExecFns;
use vstd::utf8::{decode_utf8, valid_utf8};

verus! {

/// `String::push` appends exactly the given character.
pub assume_specification[ String::push ](s: &mut String, c: char)
    ensures
        final(s)@ == old(s)@.push(c),
;

/// `String::from_utf8`: the text that `bytes` encode, or nothing where they
/// are not valid UTF-8.
#[verifier::external_body]
pub(crate) fn utf8_text(bytes: Vec<u8>) -> (text: Option<String>)
    ensures
        text is Some <==> valid_utf8(bytes@),
        text is Some ==> text->0@ == decode_utf8(bytes@),
{
    String::from_utf8(bytes).ok()
}

/// The characters of `s`, in order.
pub fn chars_of(s: &str) -> (chars: Vec<char>)
    ensures
        chars@ == s@,
{
    let mut chars: Vec<char> = Vec::new();
    for c in it: s.chars()
        invariant
            it.seq() == s@,
            chars@ == s@.take(it.index()),
    {
        chars.push(c);
    }
    chars
}

/// The texts of a sequence of strings.
pub open spec fn texts(strings: Seq<String>) -> Seq<Seq<char>> {
    Seq::new(strings.len(), |i: int| strings[i]@)
}

/// Whether two strings hold the same text.
pub fn same_text(a: &str, b: &str) -> (same: bool)
    ensures
        same == (a@ == b@),
{
    let left = chars_of(a);
    let right = chars_of(b);
    if left.len() != right.len() {
        return false;
    }
    let mut i: usize = 0;
    while i < left.len()
        invariant
            left@ == a@,
            right@ == b@,
            left@.len() == right@.len(),
            i <= left@.len(),
            forall|k: int| 0 <= k < i ==> left@[k] == right@[k],
        decreases left.len() - i,
    {
        if left[i] != right[i] {
            return false;
        }
        i = i + 1;
    }
    assert(a@ =~= b@);
    true
}

/// The string made of `chars[from..to]`.
pub fn string_of(chars: &Vec<char>, from: usize, to: usize) -> (s: String)
    requires
        from <= to <= chars.len(),
    ensures
        s@ == chars@.subrange(from as int, to as int),
{
    let mut s = String::new();
    let mut i: usize = from;
    while i < to
        invariant
            from <= i <= to <= chars.len(),
            s@ == chars@.subrange(from as int, i as int),
        decreases to - i,
    {
        s.push(chars[i]);
        i = i + 1;
    }
    s
}

/// The pieces of `s` between occurrences of `sep`. There is always at least
/// one piece; a separator at the very end leaves an empty last piece.
pub open spec fn split(s: Seq<char>, sep: char) -> Seq<Seq<char>>
    decreases s.len(),
{
    if s.len() == 0 {
        seq![Seq::<char>::empty()]
    } else {
        let before = split(s.drop_last(), sep);
        if s.last() == sep {
            before.push(Seq::<char>::empty())
        } else {
            before.drop_last().push(before.last().push(s.last()))
        }
    }
}

/// The pieces glued back together with `sep` between each two neighbours.
pub open spec fn join(pieces: Seq<Seq<char>>, sep: char) -> Seq<char>
    decreases pieces.len(),
{
    if pieces.len() == 0 {
        Seq::<char>::empty()
    } else if pieces.len() == 1 {
        pieces[0]
    } else {
        join(pieces.drop_last(), sep).push(sep) + pieces.last()
    }
}

/// `split` never yields an empty sequence of pieces.
pub proof fn lemma_split_nonempty(s: Seq<char>, sep: char)
    ensures
        split(s, sep).len() >= 1,
    decreases s.len(),
{
    if s.len() > 0 {
        lemma_split_nonempty(s.drop_last(), sep);
    }
}

/// No piece of a split holds the separator.
pub proof fn lemma_split_pieces_clean(s: Seq<char>, sep: char)
    ensures
        forall|k: int, j: int|
            0 <= k < split(s, sep).len() && 0 <= j < split(s, sep)[k].len() ==> split(
                s,
                sep,
            )[k][j] != sep,
    decreases s.len(),
{
    if s.len() > 0 {
        lemma_split_pieces_clean(s.drop_last(), sep);
        lemma_split_nonempty(s.drop_last(), sep);
    }
}

/// Joining the pieces of a split gives the text back.
pub proof fn lemma_join_split(s: Seq<char>, sep: char)
    ensures
        join(split(s, sep), sep) == s,
    decreases s.len(),
{
    if s.len() == 0 {
        assert(join(split(s, sep), sep) =~= s);
    } else {
        let front = s.drop_last();
        let before = split(front, sep);
        lemma_join_split(front, sep);
        lemma_split_nonempty(front, sep);
        if s.last() == sep {
            let now = before.push(Seq::<char>::empty());
            assert(now.drop_last() =~= before);
            assert(join(now, sep) =~= s);
        } else {
            let now = before.drop_last().push(before.last().push(s.last()));
            assert(now.drop_last() =~= before.drop_last());
            if before.len() == 1 {
                assert(join(before, sep) == before[0]);
                assert(join(now, sep) =~= s);
            } else {
                let head = join(before.drop_last(), sep).push(sep);
                assert(join(before, sep) == head + before.last());
                assert(join(now, sep) == head + before.last().push(s.last()));
                assert(head + before.last().push(s.last()) =~= (head + before.last()).push(
                    s.last(),
                ));
                assert(front.push(s.last()) =~= s);
            }
        }
    }
}

/// Whether `bounds` gives, for each piece of `split(s, sep)` in order, the
/// half-open range of `s` that the piece occupies.
pub open spec fn marks_pieces(s: Seq<char>, sep: char, bounds: Seq<(usize, usize)>) -> bool {
    let pieces = split(s, sep);
    &&& bounds.len() == pieces.len()
    &&& bounds.len() >= 1
    &&& bounds[0].0 == 0
    &&& bounds.last().1 == s.len()
    &&& forall|k: int|
        0 <= k < bounds.len() ==> bounds[k].0 <= bounds[k].1 <= s.len() && s.subrange(
            bounds[k].0 as int,
            bounds[k].1 as int,
        ) == #[trigger] pieces[k]
    &&& forall|j: int, k: int|
        #![trigger bounds[j], bounds[k]]
        0 <= j && k == j + 1 && k < bounds.len() ==> bounds[j].1 + 1 == bounds[k].0
            && s[bounds[j].1 as int] == sep
}

/// The ranges of `chars` that its pieces between separators occupy.
pub fn piece_bounds(chars: &Vec<char>, sep: char) -> (bounds: Vec<(usize, usize)>)
    ensures
        marks_pieces(chars@, sep, bounds@),
{
    let mut bounds: Vec<(usize, usize)> = Vec::new();
    let mut start: usize = 0;
    let mut i: usize = 0;
    let ghost s = chars@;
    while i < chars.len()
        invariant
            s == chars@,
            start <= i <= s.len(),
            bounds@.len() + 1 == split(s.take(i as int), sep).len(),
            s.subrange(start as int, i as int) == split(s.take(i as int), sep).last(),
            bounds@.len() == 0 ==> start == 0,
            bounds@.len() > 0 ==> bounds@[0].0 == 0 && bounds@.last().1 + 1 == start,
            forall|k: int|
                0 <= k < bounds@.len() ==> (#[trigger] bounds@[k]).0 <= bounds@[k].1 < i
                    && s.subrange(bounds@[k].0 as int, bounds@[k].1 as int) == split(
                    s.take(i as int),
                    sep,
                )[k] && s[bounds@[k].1 as int] == sep,
            forall|j: int, k: int|
                #![trigger bounds@[j], bounds@[k]]
                0 <= j && k == j + 1 && k < bounds@.len() ==> bounds@[j].1 + 1 == bounds@[k].0,
        decreases s.len() - i,
    {
        let ghost before = split(s.take(i as int), sep);
        let ghost after = split(s.take(i + 1), sep);
        let ghost marked = bounds@;
        proof {
            let now = s.take(i + 1);
            assert(now.drop_last() =~= s.take(i as int));
            assert(now.last() == s[i as int]);
            assert(s.subrange(start as int, i + 1) =~= s.subrange(start as int, i as int).push(
                s[i as int],
            ));
            assert(s.subrange(i + 1, i + 1) =~= Seq::<char>::empty());
            assert(forall|k: int| 0 <= k < marked.len() ==> after[k] == before[k]);
        }
        if chars[i] == sep {
            bounds.push((start, i));
            start = i + 1;
        }
        i = i + 1;
        proof {
            assert forall|k: int| 0 <= k < bounds@.len() implies (#[trigger] bounds@[k]).0
                <= bounds@[k].1 < i && s.subrange(bounds@[k].0 as int, bounds@[k].1 as int)
                == after[k] && s[bounds@[k].1 as int] == sep by {
                if k < marked.len() {
                    assert(bounds@[k] == marked[k]);
                }
            }
            assert forall|j: int, k: int|
                #![trigger bounds@[j], bounds@[k]]
                0 <= j && k == j + 1 && k < bounds@.len() implies bounds@[j].1 + 1
                == bounds@[k].0 by {
                assert(bounds@[j] == marked[j]);
                if k < marked.len() {
                    assert(bounds@[k] == marked[k]);
                }
            }
        }
    }
    let ghost marked = bounds@;
    bounds.push((start, i));
    proof {
        assert(s.take(s.len() as int) =~= s);
        let pieces = split(s, sep);
        assert forall|k: int| 0 <= k < bounds@.len() implies bounds@[k].0 <= bounds@[k].1
            <= s.len() && s.subrange(bounds@[k].0 as int, bounds@[k].1 as int)
            == #[trigger] pieces[k] by {
            if k < marked.len() {
                assert(bounds@[k] == marked[k]);
            }
        }
        assert forall|j: int, k: int|
            #![trigger bounds@[j], bounds@[k]]
            0 <= j && k == j + 1 && k < bounds@.len() implies bounds@[j].1 + 1 == bounds@[k].0
            && s[bounds@[j].1 as int] == sep by {
            assert(bounds@[j] == marked[j]);
            if k < marked.len() {
                assert(bounds@[k] == marked[k]);
            }
        }
    }
    bounds
}

/// Consecutive pieces, joined, are the stretch of text from the start of the
/// first to the end of the last.
pub proof fn lemma_join_is_stretch(
    s: Seq<char>,
    sep: char,
    bounds: Seq<(usize, usize)>,
    a: int,
    b: int,
)
    requires
        marks_pieces(s, sep, bounds),
        0 <= a < b <= bounds.len(),
    ensures
        bounds[a].0 <= bounds[b - 1].1 <= s.len(),
        join(split(s, sep).subrange(a, b), sep) == s.subrange(
            bounds[a].0 as int,
            bounds[b - 1].1 as int,
        ),
    decreases b - a,
{
    let pieces = split(s, sep);
    let part = pieces.subrange(a, b);
    if b - a == 1 {
        assert(part[0] == pieces[a]);
    } else {
        lemma_join_is_stretch(s, sep, bounds, a, b - 1);
        assert(part.drop_last() =~= pieces.subrange(a, b - 1));
        assert(part.last() == pieces[b - 1]);
        let cut = bounds[b - 2];
        assert(cut.1 + 1 == bounds[b - 1].0 && s[cut.1 as int] == sep);
        assert(s.subrange(bounds[a].0 as int, cut.1 as int).push(sep) + s.subrange(
            bounds[b - 1].0 as int,
            bounds[b - 1].1 as int,
        ) =~= s.subrange(bounds[a].0 as int, bounds[b - 1].1 as int));
    }
}

/// Whether `word` stands in `text` at position `at`.
pub open spec fn occurs_at(text: Seq<char>, word: Seq<char>, at: int) -> bool {
    0 <= at && at + word.len() <= text.len() && text.subrange(at, at + word.len()) == word
}

/// Whether `at` is the first position at which `word` stands in `text`.
pub open spec fn first_at(text: Seq<char>, word: Seq<char>, at: int) -> bool {
    occurs_at(text, word, at) && forall|j: int| 0 <= j < at ==> !occurs_at(text, word, j)
}

/// `text` with the first occurrence of `word` replaced by `with`; `text`
/// itself where `word` does not occur.
pub open spec fn replace_first(text: Seq<char>, word: Seq<char>, with: Seq<char>) -> Seq<char> {
    if exists|at: int| first_at(text, word, at) {
        let at = choose|at: int| first_at(text, word, at);
        text.take(at) + with + text.skip(at + word.len())
    } else {
        text
    }
}

/// Whether `word` stands in `text` at position `at`.
fn matches_at(text: &Vec<char>, word: &Vec<char>, at: usize) -> (same: bool)
    requires
        at + word.len() <= text.len(),
    ensures
        same == occurs_at(text@, word@, at as int),
{
    let ghost part = text@.subrange(at as int, at + word@.len());
    let mut i: usize = 0;
    while i < word.len()
        invariant
            at + word@.len() <= text@.len() <= usize::MAX,
            part == text@.subrange(at as int, at + word@.len()),
            i <= word@.len(),
            forall|k: int| 0 <= k < i ==> part[k] == word@[k],
        decreases word.len() - i,
    {
        if text[at + i] != word[i] {
            assert(part[i as int] != word@[i as int]);
            return false;
        }
        i = i + 1;
    }
    assert(part =~= word@);
    true
}

/// The first position at which `word` stands in `text`, if it stands
/// anywhere.
pub fn find_first(text: &Vec<char>, word: &Vec<char>) -> (found: Option<usize>)
    ensures
        found is Some ==> first_at(text@, word@, found->0 as int),
        found is None ==> forall|at: int| !occurs_at(text@, word@, at),
{
    if word.len() > text.len() {
        return None;
    }
    let last = text.len() - word.len();
    let mut at: usize = 0;
    loop
        invariant
            last + word@.len() == text@.len(),
            at <= last,
            forall|j: int| 0 <= j < at ==> !occurs_at(text@, word@, j),
        decreases last - at,
    {
        if matches_at(text, word, at) {
            return Some(at);
        }
        if at == last {
            return None;
        }
        at = at + 1;
    }
}

/// `text` with the first occurrence of `word` replaced by `with`.
pub fn replace_first_in(text: &str, word: &str, with: &str) -> (replaced: String)
    ensures
        replaced@ == replace_first(text@, word@, with@),
{
    let chars = chars_of(text);
    let letters = chars_of(word);
    match find_first(&chars, &letters) {
        Some(at) => {
            assert(occurs_at(text@, word@, at as int));
            let mut replaced = string_of(&chars, 0, at);
            replaced.append(with);
            let tail = string_of(&chars, at + letters.len(), chars.len());
            replaced.append(tail.as_str());
            proof {
                let chosen = choose|i: int| first_at(text@, word@, i);
                assert(first_at(text@, word@, at as int));
                assert(chosen == at) by {
                    if chosen < at {
                        assert(!occurs_at(text@, word@, chosen));
                    }
                    if at < chosen {
                        assert(!occurs_at(text@, word@, at as int));
                    }
                }
                assert(replaced@ =~= text@.take(at as int) + with@ + text@.skip(
                    at + word@.len(),
                ));
            }
            replaced
        },
        None => {
            proof {
                if exists|i: int| first_at(text@, word@, i) {
                    let i = choose|i: int| first_at(text@, word@, i);
                    assert(occurs_at(text@, word@, i));
                }
            }
            let replaced = string_of(&chars, 0, chars.len());
            assert(replaced@ =~= text@);
            replaced
        },
    }
}

/// The character that stands for a single decimal digit.
pub open spec fn digit(d: nat) -> char {
    if d == 0 {
        '0'
    } else if d == 1 {
        '1'
    } else if d == 2 {
        '2'
    } else if d == 3 {
        '3'
    } else if d == 4 {
        '4'
    } else if d == 5 {
        '5'
    } else if d == 6 {
        '6'
    } else if d == 7 {
        '7'
    } else if d == 8 {
        '8'
    } else {
        '9'
    }
}

/// The decimal numeral of `n`, without sign or leading zeros.
pub open spec fn decimal(n: nat) -> Seq<char>
    decreases n,
{
    if n < 10 {
        seq![digit(n)]
    } else {
        decimal(n / 10).push(digit(n % 10))
    }
}

fn digit_char(d: usize) -> (c: char)
    requires
        d < 10,
    ensures
        c == digit(d as nat),
{
    if d == 0 {
        '0'
    } else if d == 1 {
        '1'
    } else if d == 2 {
        '2'
    } else if d == 3 {
        '3'
    } else if d == 4 {
        '4'
    } else if d == 5 {
        '5'
    } else if d == 6 {
        '6'
    } else if d == 7 {
        '7'
    } else if d == 8 {
        '8'
    } else {
        '9'
    }
}

/// Appends the decimal numeral of `n` to `out`.
pub fn push_decimal(out: &mut String, n: usize)
    ensures
        final(out)@ == old(out)@ + decimal(n as nat),
{
    let mut low: Vec<char> = Vec::new();
    let mut m: usize = n;
    let ghost mut tail: Seq<char> = Seq::empty();
    while m >= 10
        invariant
            decimal(n as nat) == decimal(m as nat) + tail,
            tail.len() == low@.len(),
            forall|j: int| 0 <= j < tail.len() ==> tail[j] == low@[low@.len() - 1 - j],
        decreases m,
    {
        let c = digit_char(m % 10);
        proof {
            let longer = seq![c] + tail;
            assert(decimal(m as nat) + tail =~= decimal((m / 10) as nat) + longer);
            tail = longer;
        }
        low.push(c);
        m = m / 10;
    }
    let c = digit_char(m);
    out.push(c);
    let mut k: usize = low.len();
    assert(decimal(n as nat) =~= seq![c] + tail);
    while k > 0
        invariant
            k <= low@.len(),
            tail.len() == low@.len(),
            forall|j: int| 0 <= j < tail.len() ==> tail[j] == low@[low@.len() - 1 - j],
            out@ == old(out)@.push(c) + tail.take(low@.len() - k),
        decreases k,
    {
        k = k - 1;
        out.push(low[k]);
        proof {
            let done = low@.len() - k;
            assert(tail.take(done) =~= tail.take(done - 1).push(tail[done - 1]));
        }
    }
    assert(tail.take(tail.len() as int) =~= tail);
    assert(old(out)@.push(c) + tail =~= old(out)@ + (seq![c] + tail));
}

} // verus!
