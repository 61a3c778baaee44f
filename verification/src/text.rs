//! Building and taking apart text.

use vstd::prelude::*;

verus! {

// ---------------------------------------------------------------------------
// Numbers and lists as text
// ---------------------------------------------------------------------------

/// The decimal digits of a natural number, without leading zeros.
pub open spec fn decimal(n: nat) -> Seq<char>
    decreases n,
{
    if n < 10 {
        seq!["0123456789"@[n as int]]
    } else {
        decimal(n / 10).push("0123456789"@[(n % 10) as int])
    }
}

/// An integer in decimal, with a minus sign if it is negative.
pub open spec fn signed_decimal(n: int) -> Seq<char> {
    if n < 0 {
        "-"@ + decimal((-n) as nat)
    } else {
        decimal(n as nat)
    }
}

/// The items one after the other, separated by a comma and a space.
pub open spec fn separated(items: Seq<Seq<char>>) -> Seq<char>
    decreases items.len(),
{
    if items.len() == 0 {
        Seq::empty()
    } else if items.len() == 1 {
        items[0]
    } else {
        separated(items.drop_last()) + ", "@ + items.last()
    }
}

/// A list of items in square brackets.
pub open spec fn bracketed(items: Seq<Seq<char>>) -> Seq<char> {
    "["@ + separated(items) + "]"@
}

/// A tensor shape as text, such as `[1, 3, 24, 94]`.
pub open spec fn shape_text(shape: Seq<i64>) -> Seq<char> {
    bracketed(shape.map_values(|d: i64| signed_decimal(d as int)))
}

/// Appends the decimal digits of `n`.
pub fn push_decimal(out: &mut String, n: u64)
    ensures
        final(out)@ == old(out)@ + decimal(n as nat),
    decreases n,
{
    let digits = "0123456789";
    proof {
        reveal_strlit("0123456789");
    }
    let ghost before = out@;
    if n >= 10 {
        push_decimal(out, n / 10);
    }
    let d = (n % 10) as usize;
    out.append(digits.substring_char(d, d + 1));
    assert(digits@.subrange(d as int, d + 1) =~= seq![digits@[d as int]]);
    assert(out@ =~= before + decimal(n as nat));
}

/// Appends `n` in decimal, with its sign.
pub fn push_signed(out: &mut String, n: i64)
    ensures
        final(out)@ == old(out)@ + signed_decimal(n as int),
{
    let ghost before = out@;
    if n < 0 {
        out.append("-");
        let magnitude: u64 = if n == i64::MIN { 0x8000_0000_0000_0000u64 } else { (-n) as u64 };
        push_decimal(out, magnitude);
        assert(out@ =~= before + signed_decimal(n as int));
    } else {
        push_decimal(out, n as u64);
    }
}

/// Appends a list of items in square brackets.
pub fn push_list(out: &mut String, items: &Vec<String>)
    ensures
        final(out)@ == old(out)@ + bracketed(texts(items@)),
{
    let ghost before = out@;
    let ghost all = texts(items@);
    out.append("[");
    let mut i: usize = 0;
    while i < items.len()
        invariant
            i <= items.len(),
            all == texts(items@),
            out@ == before + "["@ + separated(all.take(i as int)),
        decreases items.len() - i,
    {
        if i > 0 {
            out.append(", ");
        }
        out.append(items[i].as_str());
        proof {
            let longer = all.take(i + 1);
            assert(longer.drop_last() =~= all.take(i as int));
            assert(longer.last() == items[i as int]@);
            if i == 0 {
                assert(all.take(0) =~= Seq::<Seq<char>>::empty());
                assert(out@ =~= before + "["@ + separated(longer));
            } else {
                assert(separated(longer) == separated(all.take(i as int)) + ", "@ + longer.last());
                assert(out@ =~= before + "["@ + separated(longer));
            }
        }
        i += 1;
    }
    out.append("]");
    assert(all.take(i as int) =~= all);
    assert(out@ =~= before + bracketed(all));
}

/// Appends a tensor shape as text.
pub fn push_shape(out: &mut String, shape: &Vec<i64>)
    ensures
        final(out)@ == old(out)@ + shape_text(shape@),
{
    let ghost item = |d: i64| signed_decimal(d as int);
    let mut items: Vec<String> = Vec::new();
    let mut i: usize = 0;
    while i < shape.len()
        invariant
            i <= shape.len(),
            item == (|d: i64| signed_decimal(d as int)),
            texts(items@) == shape@.take(i as int).map_values(item),
        decreases shape.len() - i,
    {
        let ghost before = items@;
        let mut digits = String::new();
        push_signed(&mut digits, shape[i]);
        assert(digits@ =~= signed_decimal(shape[i as int] as int));
        items.push(digits);
        assert(texts(items@) =~= texts(before).push(signed_decimal(shape[i as int] as int)));
        assert(shape@.take(i + 1).map_values(item) =~= shape@.take(i as int).map_values(item).push(
            signed_decimal(shape[i as int] as int),
        ));
        i += 1;
    }
    assert(shape@.take(i as int) =~= shape@);
    push_list(out, &items);
}

// ---------------------------------------------------------------------------
// Searching and splitting
// ---------------------------------------------------------------------------

/// Whether `part` stands in `whole` at position `i`.
pub open spec fn stands_at(part: Seq<char>, whole: Seq<char>, i: int) -> bool {
    0 <= i && i + part.len() <= whole.len() && whole.subrange(i, i + part.len()) == part
}

/// Whether `part` occurs somewhere in `whole`.
pub open spec fn occurs_in(part: Seq<char>, whole: Seq<char>) -> bool {
    exists|i: int| #[trigger] stands_at(part, whole, i)
}

/// The characters of a text.
pub fn chars_of(text: &str) -> (chars: Vec<char>)
    ensures
        chars@ == text@,
{
    let mut chars: Vec<char> = Vec::new();
    for c in it: text.chars()
        invariant
            it.seq() == text@,
            chars@ == it.seq().take(it.index()),
    {
        chars.push(c);
        assert(it.seq().take(it.index() + 1) =~= it.seq().take(it.index()).push(c));
    }
    assert(chars@ =~= text@);
    chars
}

/// Whether `part` occurs in `whole`.
pub fn contains_text(whole: &str, part: &str) -> (r: bool)
    ensures
        r == occurs_in(part@, whole@),
{
    let w = chars_of(whole);
    let p = chars_of(part);
    if p.len() > w.len() {
        return false;
    }
    let mut i: usize = 0;
    while i <= w.len() - p.len()
        invariant
            w@ == whole@,
            p@ == part@,
            p.len() <= w.len(),
            i <= w.len() - p.len() + 1,
            forall|k: int| 0 <= k < i ==> !#[trigger] stands_at(part@, whole@, k),
        decreases w.len() - p.len() + 1 - i,
    {
        let mut k: usize = 0;
        while k < p.len() && w[i + k] == p[k]
            invariant
                i + p.len() <= w.len(),
                k <= p.len(),
                forall|m: int| 0 <= m < k ==> w[i + m] == #[trigger] p[m],
            decreases p.len() - k,
        {
            k += 1;
        }
        if k == p.len() {
            assert(whole@.subrange(i as int, i + p.len()) =~= part@);
            assert(stands_at(part@, whole@, i as int));
            return true;
        }
        assert(!stands_at(part@, whole@, i as int)) by {
            assert(whole@.subrange(i as int, i + p.len())[k as int] == w[i + k]);
        }
        i += 1;
    }
    false
}

/// The line without a carriage return at its end.
pub open spec fn without_return(line: Seq<char>) -> Seq<char> {
    if line.len() > 0 && line.last() == '\r' {
        line.drop_last()
    } else {
        line
    }
}

/// The finished lines of a text and what stands after its last line feed.
pub open spec fn lines_and_rest(text: Seq<char>) -> (Seq<Seq<char>>, Seq<char>)
    decreases text.len(),
{
    if text.len() == 0 {
        (Seq::empty(), Seq::empty())
    } else {
        let (done, rest) = lines_and_rest(text.drop_last());
        if text.last() == '\n' {
            (done.push(without_return(rest)), Seq::empty())
        } else {
            (done, rest.push(text.last()))
        }
    }
}

/// The lines of a text. A line ends with a line feed or with a carriage return and a line
/// feed, neither of which belongs to it; the ending of the last line may be missing.
pub open spec fn lines_of(text: Seq<char>) -> Seq<Seq<char>> {
    let (done, rest) = lines_and_rest(text);
    if rest.len() == 0 {
        done
    } else {
        done.push(rest)
    }
}

/// The texts of a list of strings.
pub open spec fn texts(strings: Seq<String>) -> Seq<Seq<char>> {
    strings.map_values(|s: String| s@)
}

/// Splits a text into its lines.
pub fn split_lines(text: &str) -> (lines: Vec<String>)
    ensures
        texts(lines@) == lines_of(text@),
{
    let chars = chars_of(text);
    let mut lines: Vec<String> = Vec::new();
    let mut start: usize = 0;
    let mut i: usize = 0;
    assert(text@.subrange(0, 0) =~= Seq::<char>::empty());
    while i < chars.len()
        invariant
            chars@ == text@,
            start <= i <= chars.len(),
            (texts(lines@), text@.subrange(start as int, i as int)) == lines_and_rest(text@.take(i as int)),
        decreases chars.len() - i,
    {
        let ghost shorter = text@.take(i as int);
        let ghost longer = text@.take(i + 1);
        let ghost done = lines@;
        let ghost rest = text@.subrange(start as int, i as int);
        assert(longer.drop_last() =~= shorter);
        assert(longer.last() == chars[i as int]);
        if chars[i] == '\n' {
            let end: usize = if start < i && chars[i - 1] == '\r' {
                i - 1
            } else {
                i
            };
            assert(text@.subrange(start as int, end as int) =~= without_return(rest));
            lines.push(String::from_str(text.substring_char(start, end)));
            start = i + 1;
            assert(texts(lines@) =~= texts(done).push(without_return(rest)));
            assert(text@.subrange(start as int, i + 1) =~= Seq::<char>::empty());
        } else {
            assert(text@.subrange(start as int, i + 1) =~= rest.push(chars[i as int]));
        }
        i += 1;
    }
    assert(text@.take(i as int) =~= text@);
    if start < i {
        let ghost done = lines@;
        lines.push(String::from_str(text.substring_char(start, i)));
        assert(texts(lines@) =~= texts(done).push(text@.subrange(start as int, i as int)));
    }
    lines
}

// ---------------------------------------------------------------------------
// Texts made by the standard library
// ---------------------------------------------------------------------------

/// The lower-case form of a text, as `str::to_lowercase` gives it.
pub uninterp spec fn lowercase_text(text: Seq<char>) -> Seq<char>;

/// The debug form of a text, as `<str as Debug>::fmt` writes it: in double quotes, with
/// quotes, backslashes and unprintable characters escaped.
pub uninterp spec fn quoted_text(text: Seq<char>) -> Seq<char>;

/// Calls `str::to_lowercase`. The result is a function of the text, by the Unicode
/// property `Lowercase`; it is named and not spelled out.
#[verifier::external_body]
pub(crate) fn to_lowercase(text: &str) -> (r: String)
    ensures
        r@ == lowercase_text(text@),
{
    text.to_lowercase()
}

/// Formats a text with `<str as Debug>::fmt`. The result is a function of the text; it is
/// named and not spelled out.
#[verifier::external_body]
pub(crate) fn to_quoted(text: &str) -> (r: String)
    ensures
        r@ == quoted_text(text@),
{
    format!("{:?}", text)
}

/// A list of names as text, each in its debug form.
pub open spec fn names_text(names: Seq<Seq<char>>) -> Seq<char> {
    bracketed(names.map_values(|n: Seq<char>| quoted_text(n)))
}

/// Appends a list of names, each in its debug form.
pub fn push_names(out: &mut String, names: &Vec<String>)
    ensures
        final(out)@ == old(out)@ + names_text(texts(names@)),
{
    let ghost quote = |n: Seq<char>| quoted_text(n);
    let mut items: Vec<String> = Vec::new();
    let mut i: usize = 0;
    while i < names.len()
        invariant
            i <= names.len(),
            quote == (|n: Seq<char>| quoted_text(n)),
            texts(items@) == texts(names@).take(i as int).map_values(quote),
        decreases names.len() - i,
    {
        let ghost before = items@;
        let quoted = to_quoted(names[i].as_str());
        items.push(quoted);
        assert(texts(items@) =~= texts(before).push(quoted_text(names[i as int]@)));
        assert(texts(names@).take(i + 1).map_values(quote) =~= texts(names@).take(i as int).map_values(quote).push(
            quoted_text(names[i as int]@),
        ));
        i += 1;
    }
    assert(texts(names@).take(i as int) =~= texts(names@));
    push_list(out, &items);
}

/// The digits of a number, read from the left, give the number back. There are only digits, and
/// the first one is zero only for the number zero.
pub proof fn digits_give_the_number_back(n: nat)
    ensures
        decimal(n).fold_left(0int, |v: int, c: char| 10 * v + (c as int - '0' as int)) == n,
        forall|i: int| 0 <= i < decimal(n).len() ==> '0' <= #[trigger] decimal(n)[i] <= '9',
        decimal(n).len() > 0,
        n > 0 ==> decimal(n)[0] != '0',
    decreases n,
{
    reveal_strlit("0123456789");
    let f = |v: int, c: char| 10 * v + (c as int - '0' as int);
    let d = "0123456789"@[(n % 10) as int];
    assert(d as int - '0' as int == n % 10);
    if n < 10 {
        let alone = seq![d];
        assert(decimal(n) =~= alone);
        assert(alone.drop_last() =~= Seq::<char>::empty());
        assert(Seq::<char>::empty().fold_left(0int, f) == 0);
        assert(alone.fold_left(0int, f) == f(alone.drop_last().fold_left(0int, f), alone.last()));
    } else {
        digits_give_the_number_back(n / 10);
        let before = decimal(n / 10);
        assert(decimal(n).drop_last() =~= before);
        assert(decimal(n).last() == d);
        assert(decimal(n).fold_left(0int, f) == f(before.fold_left(0int, f), d));
    }
}

/// A list begins with its first item. If there are more, a comma, a space and the list of the
/// others follow.
pub proof fn lists_begin_with_their_first_item(first: Seq<char>, others: Seq<Seq<char>>)
    ensures
        separated(seq![first]) == first,
        others.len() > 0 ==> separated(seq![first] + others) == first + seq![',', ' '] + separated(others),
    decreases others.len(),
{
    reveal_strlit(", ");
    assert(", "@ =~= seq![',', ' ']);
    assert(seq![first][0] == first);
    if others.len() > 0 {
        let all = seq![first] + others;
        assert(all.drop_last() =~= seq![first] + others.drop_last());
        assert(all.last() == others.last());
        if others.len() == 1 {
            assert(all.drop_last() =~= seq![first]);
            assert(separated(all) == separated(seq![first]) + ", "@ + others[0]);
        } else {
            lists_begin_with_their_first_item(first, others.drop_last());
            assert(separated(all) =~= first + seq![',', ' '] + separated(others));
        }
    }
}

/// A line feed ends a line: what stands before the first one is the first line, without a
/// carriage return at its end, and the lines of what stands behind it follow. A text without a
/// line feed is one line, and an empty text has no lines.
pub proof fn lines_end_with_line_feeds(line: Seq<char>, rest: Seq<char>)
    requires
        !line.contains('\n'),
    ensures
        lines_of(Seq::empty()) == Seq::<Seq<char>>::empty(),
        line.len() > 0 ==> lines_of(line) == seq![line],
        line.len() == 0 || line.last() != '\r' ==> lines_of(line.push('\n') + rest) == seq![line] + lines_of(rest),
        lines_of(line.push('\r').push('\n') + rest) == seq![line] + lines_of(rest),
{
    let none = Seq::<Seq<char>>::empty();
    lemma_one_line(line);
    assert(none.push(line) =~= seq![line]);
    if line.len() == 0 || line.last() != '\r' {
        assert(line.push('\n').drop_last() =~= line);
        assert(lines_and_rest(line.push('\n')) == (none.push(line), Seq::<char>::empty()));
        lemma_more_lines(line.push('\n'), seq![line], rest);
    }
    let returned = line.push('\r');
    assert forall|i: int| 0 <= i < returned.len() implies returned[i] != '\n' by {
        if i < line.len() {
            assert(line.contains(line[i]));
        }
    }
    lemma_one_line(returned);
    assert(returned.push('\n').drop_last() =~= returned);
    assert(returned.drop_last() =~= line);
    lemma_more_lines(returned.push('\n'), seq![line], rest);
}

/// A text without a line feed has no finished line.
proof fn lemma_one_line(text: Seq<char>)
    requires
        !text.contains('\n'),
    ensures
        lines_and_rest(text) == (Seq::<Seq<char>>::empty(), text),
    decreases text.len(),
{
    if text.len() > 0 {
        let shorter = text.drop_last();
        assert(text.contains(text.last()));
        assert forall|i: int| 0 <= i < shorter.len() implies shorter[i] != '\n' by {
            assert(text.contains(text[i]));
        }
        lemma_one_line(shorter);
        assert(shorter.push(text.last()) =~= text);
    } else {
        assert(text =~= Seq::<char>::empty());
    }
}

/// The lines of a text behind finished lines.
proof fn lemma_more_lines(text: Seq<char>, done: Seq<Seq<char>>, rest: Seq<char>)
    requires
        lines_and_rest(text) == (done, Seq::<char>::empty()),
    ensures
        lines_and_rest(text + rest) == (done + lines_and_rest(rest).0, lines_and_rest(rest).1),
        lines_of(text + rest) == done + lines_of(rest),
    decreases rest.len(),
{
    if rest.len() == 0 {
        assert(text + rest =~= text);
        assert(done + Seq::<Seq<char>>::empty() =~= done);
    } else {
        lemma_more_lines(text, done, rest.drop_last());
        assert((text + rest).drop_last() =~= text + rest.drop_last());
        let (shorter, tail) = lines_and_rest(rest.drop_last());
        assert((done + shorter).push(without_return(tail)) =~= done + shorter.push(without_return(tail)));
        let (d, r) = lines_and_rest(rest);
        assert((done + d).push(r) =~= done + d.push(r));
    }
}

/// A number that is not negative is written with digits alone, and a negative one with a minus sign
/// in front of the digits of its opposite. The digits give the number back.
pub proof fn signs_stand_before_the_digits(n: int)
    ensures
        ({
            let value = |s: Seq<char>| s.fold_left(0int, |v: int, c: char| 10 * v + (c as int - '0' as int));
            &&& n >= 0 ==> value(signed_decimal(n)) == n && signed_decimal(n)[0] != '-'
            &&& n < 0 ==> signed_decimal(n).len() > 1 && signed_decimal(n)[0] == '-' && value(
                signed_decimal(n).skip(1),
            ) == -n
        }),
{
    reveal_strlit("-");
    if n < 0 {
        let digits = decimal((-n) as nat);
        digits_give_the_number_back((-n) as nat);
        assert(signed_decimal(n).skip(1) =~= digits);
    } else {
        digits_give_the_number_back(n as nat);
    }
}

/// A list in brackets begins with the opening one and ends with the closing one, and between them
/// stand the items.
pub proof fn brackets_stand_around_the_items(items: Seq<Seq<char>>)
    ensures
        bracketed(items).len() == separated(items).len() + 2,
        bracketed(items)[0] == '[',
        bracketed(items)[bracketed(items).len() - 1] == ']',
        bracketed(items).subrange(1, bracketed(items).len() - 1) == separated(items),
{
    reveal_strlit("[");
    reveal_strlit("]");
    assert(bracketed(items).subrange(1, bracketed(items).len() - 1) =~= separated(items));
}

} // verus!
