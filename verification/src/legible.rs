//! Laws of the texts: what can be read off them.
use crate::analysis::Analysis;
use crate::net::NetModel;
use crate::report;
use crate::text;
use vstd::prelude::*;

verus! {

// ---------------------------------------------------------------------
// Words
// ---------------------------------------------------------------------

/// White space ends the first word.
proof fn lemma_word_len_first_part(a: Seq<char>, c: char, b: Seq<char>)
    requires
        text::white_space(c),
    ensures
        text::word_len(a + seq![c] + b) == text::word_len(a),
    decreases a.len(),
{
    let s = a + seq![c] + b;
    if a.len() == 0 {
        assert(s[0] == c);
    } else {
        assert(s[0] == a[0]);
        assert(s.drop_first() =~= a.drop_first() + seq![c] + b);
        if !text::white_space(a[0]) {
            lemma_word_len_first_part(a.drop_first(), c, b);
        }
    }
}

/// The words of two texts with white space between them are the words of the
/// one and the words of the other.
pub proof fn law_words_concat(a: Seq<char>, c: char, b: Seq<char>)
    requires
        text::white_space(c),
    ensures
        text::words(a + seq![c] + b) == text::words(a) + text::words(b),
    decreases a.len(),
{
    let s = a + seq![c] + b;
    if a.len() == 0 {
        assert(s[0] == c);
        assert(s.drop_first() =~= b);
        assert(text::trimmed_start(s) == text::trimmed_start(b));
        assert(text::words(s) == text::words(b));
        assert(text::words(a) =~= Seq::empty());
        assert(text::words(a) + text::words(b) =~= text::words(b));
    } else if text::white_space(a[0]) {
        assert(s[0] == a[0]);
        assert(s.drop_first() =~= a.drop_first() + seq![c] + b);
        assert(text::words(s) == text::words(s.drop_first()));
        assert(text::words(a) == text::words(a.drop_first()));
        law_words_concat(a.drop_first(), c, b);
    } else {
        assert(s[0] == a[0]);
        let n = text::word_len(a) as int;
        text::lemma_word_len(a);
        lemma_word_len_first_part(a, c, b);
        assert(s.take(n) =~= a.take(n));
        assert(s.skip(n) =~= a.skip(n) + seq![c] + b);
        law_words_concat(a.skip(n), c, b);
        assert(text::words(s) =~= text::words(a) + text::words(b));
    }
}

/// A word is its only word.
pub proof fn law_single_word(w: Seq<char>)
    requires
        text::is_word(w),
    ensures
        text::words(w) == seq![w],
{
    text::lemma_word_len(w);
    assert(!text::white_space(w[0]));
    assert(text::word_len(w) == w.len());
    assert(w.take(w.len() as int) =~= w);
    assert(w.skip(w.len() as int) =~= Seq::<char>::empty());
    assert(text::words(Seq::<char>::empty()) =~= Seq::empty());
    assert(text::words(w) =~= seq![w]);
}

/// White space alone holds no word.
pub proof fn law_blank_has_no_words(s: Seq<char>)
    requires
        forall|i: int| 0 <= i < s.len() ==> text::white_space(#[trigger] s[i]),
    ensures
        text::words(s).len() == 0,
{
    text::lemma_blank_trimmed(s);
}

/// White space are these characters, by their numbers.
pub proof fn law_white_space(c: char)
    ensures
        text::white_space(c) <==> {
            let u = c as int;
            9 <= u <= 13 || u == 32 || u == 133 || u == 160 || u == 5760 || 8192 <= u <= 8202 || u
                == 8232 || u == 8233 || u == 8239 || u == 8287 || u == 12288
        },
{
}

/// A word is not empty, and has no white space in it.
pub proof fn law_is_word(s: Seq<char>)
    ensures
        text::is_word(s) <==> s.len() > 0 && !(exists|i: int|
            0 <= i < s.len() && text::white_space(#[trigger] s[i])),
{
}

/// Trimming leaves the part from the first to the last character that is not
/// white space.
pub proof fn law_trimmed(s: Seq<char>) -> (r: (int, int))
    ensures
        0 <= r.0 <= r.1 <= s.len(),
        text::trimmed(s) == s.subrange(r.0, r.1),
        forall|i: int| 0 <= i < r.0 ==> text::white_space(#[trigger] s[i]),
        forall|i: int| r.1 <= i < s.len() ==> text::white_space(#[trigger] s[i]),
        r.0 < r.1 ==> !text::white_space(s[r.0]) && !text::white_space(s[r.1 - 1]),
{
    let i = lemma_trimmed_start_at(s);
    let t = text::trimmed_start(s);
    let j = lemma_trimmed_end_at(t);
    assert(t.take(j) =~= s.subrange(i, i + j));
    assert forall|k: int| i + j <= k < s.len() implies text::white_space(#[trigger] s[k]) by {
        assert(t[k - i] == s[k]);
    }
    if j > 0 {
        assert(t[0] == s[i]);
        assert(t[j - 1] == s[i + j - 1]);
    }
    (i, i + j)
}

proof fn lemma_trimmed_start_at(s: Seq<char>) -> (i: int)
    ensures
        0 <= i <= s.len(),
        text::trimmed_start(s) == s.skip(i),
        forall|k: int| 0 <= k < i ==> text::white_space(#[trigger] s[k]),
        i < s.len() ==> !text::white_space(s[i]),
    decreases s.len(),
{
    if s.len() > 0 && text::white_space(s[0]) {
        let d = s.drop_first();
        let i = lemma_trimmed_start_at(d);
        assert(d.skip(i) =~= s.skip(i + 1));
        assert forall|k: int| 0 <= k < i + 1 implies text::white_space(#[trigger] s[k]) by {
            if k > 0 {
                assert(d[k - 1] == s[k]);
            }
        }
        i + 1
    } else {
        assert(s.skip(0) =~= s);
        0
    }
}

proof fn lemma_trimmed_end_at(s: Seq<char>) -> (j: int)
    ensures
        0 <= j <= s.len(),
        text::trimmed_end(s) == s.take(j),
        forall|k: int| j <= k < s.len() ==> text::white_space(#[trigger] s[k]),
        j > 0 ==> !text::white_space(s[j - 1]),
    decreases s.len(),
{
    if s.len() > 0 && text::white_space(s.last()) {
        let d = s.drop_last();
        let j = lemma_trimmed_end_at(d);
        assert(d.take(j) =~= s.take(j));
        assert forall|k: int| j <= k < s.len() implies text::white_space(#[trigger] s[k]) by {
            if k < d.len() {
                assert(d[k] == s[k]);
            }
        }
        if j > 0 {
            assert(d[j - 1] == s[j - 1]);
        }
        j
    } else {
        assert(s.take(s.len() as int) =~= s);
        s.len() as int
    }
}

/// A text that holds the character `c` is what stands before its first `c`,
/// the `c`, and what stands after it.
pub proof fn law_before_and_after(s: Seq<char>, c: char)
    requires
        s.contains(c),
    ensures
        s == text::before(s, c) + seq![c] + text::after(s, c),
        !text::before(s, c).contains(c),
{
    text::lemma_find(s, c);
    let n = text::find(s, c) as int;
    if n == s.len() {
        let i = choose|i: int| 0 <= i < s.len() && s[i] == c;
        assert(s[i] != c);
    }
    assert(s =~= text::before(s, c) + seq![c] + text::after(s, c));
    if text::before(s, c).contains(c) {
        let i = choose|i: int|
            0 <= i < text::before(s, c).len() && text::before(s, c)[i] == c;
        assert(s[i] != c);
    }
}

/// A text without a line feed is a single line.
pub proof fn law_single_line(s: Seq<char>)
    requires
        !s.contains('\n'),
    ensures
        text::lines(s) == seq![s],
{
    text::lemma_find(s, '\n');
    if text::find(s, '\n') < s.len() {
        assert(s.contains('\n'));
    }
}

/// The length of a text in bytes is the length of its UTF-8 encoding.
pub proof fn law_utf8_len(s: Seq<char>)
    ensures
        text::utf8_len(s) == vstd::utf8::encode_utf8(s).len(),
{
}

/// Copies of a character: that many, and nothing else.
pub proof fn law_repeated(c: char, n: nat)
    ensures
        text::repeated(c, n).len() == n,
        forall|i: int| 0 <= i < n ==> #[trigger] text::repeated(c, n)[i] == c,
{
}

/// Padding keeps the text, and fills up with spaces to the width, on the right
/// or on the left; what is wide enough stays as it is.
pub proof fn law_padding(s: Seq<char>, width: nat)
    ensures
        s.len() >= width ==> text::padded_right(s, width) == s && text::padded_left(s, width) == s,
        s.len() < width ==> {
            let r = text::padded_right(s, width);
            let l = text::padded_left(s, width);
            &&& r.len() == width && l.len() == width
            &&& r.take(s.len() as int) == s
            &&& forall|i: int| s.len() <= i < width ==> #[trigger] r[i] == ' '
            &&& l.skip(width - s.len()) == s
            &&& forall|i: int| 0 <= i < width - s.len() ==> #[trigger] l[i] == ' '
        },
{
    if s.len() < width {
        assert(text::padded_right(s, width).take(s.len() as int) =~= s);
        assert(text::padded_left(s, width).skip(width - s.len()) =~= s);
    }
}

/// Joining puts the separator between the parts, and nowhere else.
pub proof fn law_joined(a: Seq<Seq<char>>, b: Seq<Seq<char>>, x: Seq<char>, sep: Seq<char>)
    ensures
        text::joined(Seq::empty(), sep) == Seq::<char>::empty(),
        text::joined(seq![x], sep) == x,
        a.len() > 0 && b.len() > 0 ==> text::joined(a + b, sep) == text::joined(a, sep) + sep
            + text::joined(b, sep),
    decreases b.len(),
{
    if a.len() > 0 && b.len() > 0 {
        let d = b.drop_last();
        assert((a + b).drop_last() =~= a + d);
        if d.len() == 0 {
            assert(a + d =~= a);
        } else {
            law_joined(a, d, x, sep);
            assert(text::joined(a, sep) + sep + text::joined(d, sep) + sep + b.last()
                =~= text::joined(a, sep) + sep + (text::joined(d, sep) + sep + b.last()));
        }
    }
}

// ---------------------------------------------------------------------
// Numbers
// ---------------------------------------------------------------------

/// A number below ten is written as its digit, and a larger one as the number
/// of its tens and then its last digit.
pub proof fn law_decimal(tens: nat, d: nat)
    requires
        d < 10,
    ensures
        text::decimal(d) == seq![seq!['0', '1', '2', '3', '4', '5', '6', '7', '8', '9'][d as int]],
        tens > 0 ==> text::decimal(10 * tens + d) == text::decimal(tens) + text::decimal(d),
{
    let digits = seq!['0', '1', '2', '3', '4', '5', '6', '7', '8', '9'];
    assert(text::decimal(d) =~= seq![digits[d as int]]) by {
        assert(text::digit_char(d) as u32 == 48 + d);
        assert(digits[d as int] as u32 == 48 + d) by {
            if d == 0 {
            } else if d == 1 {
            } else if d == 2 {
            } else if d == 3 {
            } else if d == 4 {
            } else if d == 5 {
            } else if d == 6 {
            } else if d == 7 {
            } else if d == 8 {
            } else {
            }
        }
    }
    if tens > 0 {
        let n = 10 * tens + d;
        assert(n / 10 == tens && n % 10 == d);
        assert(text::decimal(n) =~= text::decimal(tens) + text::decimal(d));
    }
}

/// Different numbers are written differently.
pub proof fn law_decimal_tells_apart(a: nat, b: nat)
    ensures
        text::decimal(a) == text::decimal(b) <==> a == b,
{
    text::lemma_decimal(a);
    text::lemma_decimal(b);
}

/// Zeros before a numeral do not change what it denotes.
proof fn lemma_zeros(k: nat, s: Seq<char>)
    ensures
        text::numeral_value(text::repeated('0', k) + s) == text::numeral_value(s),
    decreases k + s.len(),
{
    let z = text::repeated('0', k);
    if s.len() > 0 {
        assert((z + s).drop_last() =~= z + s.drop_last());
        lemma_zeros(k, s.drop_last());
    } else if k > 0 {
        assert((z + s).drop_last() =~= text::repeated('0', (k - 1) as nat) + s);
        lemma_zeros((k - 1) as nat, s);
    } else {
        assert(z + s =~= s);
    }
}

/// Digits are zeros, and then the numeral of what they denote.
proof fn lemma_digits(s: Seq<char>) -> (k: nat)
    requires
        s.len() > 0,
        forall|i: int| 0 <= i < s.len() ==> text::is_digit(#[trigger] s[i]),
    ensures
        s == text::repeated('0', k) + text::decimal(text::numeral_value(s)),
    decreases s.len(),
{
    let c = s.last();
    let d = (c as u32 - 48) as nat;
    assert(text::is_digit(s[s.len() - 1]));
    law_decimal(0, d);
    assert(text::digit_char(d) == c);
    assert(text::decimal(d) =~= seq![c]);
    let p = s.drop_last();
    if p.len() == 0 {
        assert(text::numeral_value(p) == 0);
        assert(text::numeral_value(s) == d);
        assert(s =~= text::repeated('0', 0) + text::decimal(d));
        0
    } else {
        assert forall|i: int| 0 <= i < p.len() implies text::is_digit(#[trigger] p[i]) by {
            assert(p[i] == s[i]);
        }
        let k = lemma_digits(p);
        let v = text::numeral_value(p);
        assert(text::numeral_value(s) == v * 10 + d);
        assert(s =~= p + seq![c]);
        let z = text::repeated('0', k);
        assert(p == z + text::decimal(v));
        if v == 0 {
            law_decimal(0, 0);
            assert(text::decimal(0) =~= seq!['0']);
            assert(z + seq!['0'] =~= text::repeated('0', k + 1));
            assert(s == text::repeated('0', k + 1) + text::decimal(d));
            k + 1
        } else {
            law_decimal(v, d);
            assert(z + text::decimal(v) + text::decimal(d) =~= z + (text::decimal(v)
                + text::decimal(d)));
            k
        }
    }
}

/// A text denotes a count exactly if it is a plus sign or none, zeros or none,
/// and then the count as it is written.
pub proof fn law_count_reads(plus: bool, zeros: nat, v: u32)
    ensures
        text::u32_value(
            (if plus {
                seq!['+']
            } else {
                Seq::empty()
            }) + text::repeated('0', zeros) + text::decimal(v as nat),
        ) == Some(v),
{
    let z = text::repeated('0', zeros);
    let d = text::decimal(v as nat);
    text::lemma_decimal(v as nat);
    lemma_zeros(zeros, d);
    let body = z + d;
    assert forall|i: int| 0 <= i < body.len() implies text::is_digit(#[trigger] body[i]) by {
        if i >= z.len() {
            assert(body[i] == d[i - z.len()]);
        }
    }
    assert(text::is_digit(body[0]));
    if plus {
        let s = seq!['+'] + z + d;
        assert(s.drop_first() =~= body);
        assert(s[0] == '+');
    } else {
        assert(Seq::<char>::empty() + z + d =~= body);
    }
}

/// Whatever denotes a count is written like that.
pub proof fn law_count_is_read_from(s: Seq<char>) -> (r: (bool, nat))
    requires
        text::u32_value(s) is Some,
    ensures
        s == (if r.0 {
            seq!['+']
        } else {
            Seq::empty()
        }) + text::repeated('0', r.1) + text::decimal(text::u32_value(s)->0 as nat),
{
    let d = text::unsigned_part(s);
    let k = lemma_digits(d);
    if s[0] == '+' {
        let z = text::repeated('0', k);
        let n = text::decimal(text::numeral_value(d));
        assert(d == z + n);
        assert(s =~= seq!['+'] + d);
        assert(seq!['+'] + (z + n) =~= seq!['+'] + z + n);
        (true, k)
    } else {
        assert(s =~= Seq::<char>::empty() + text::repeated('0', k) + text::decimal(
            text::u32_value(s)->0 as nat,
        ));
        (false, k)
    }
}

/// Words that are joined by spaces can be told apart again.
pub proof fn law_joined_words(parts: Seq<Seq<char>>)
    requires
        forall|i: int| 0 <= i < parts.len() ==> text::is_word(#[trigger] parts[i]),
    ensures
        text::words(text::joined(parts, " "@)) == parts,
    decreases parts.len(),
{
    reveal_strlit(" ");
    assert(" "@ =~= seq![' ']);
    if parts.len() == 0 {
        assert(text::words(Seq::<char>::empty()) =~= parts);
    } else {
        assert(text::is_word(parts[parts.len() - 1]));
        law_single_word(parts.last());
        if parts.len() == 1 {
            assert(seq![parts.last()] =~= parts);
        } else {
            let shorter = parts.drop_last();
            assert forall|i: int| 0 <= i < shorter.len() implies text::is_word(
                #[trigger] shorter[i],
            ) by {
                assert(shorter[i] == parts[i]);
            }
            law_joined_words(shorter);
            law_words_concat(text::joined(shorter, " "@), ' ', parts.last());
            assert(shorter + seq![parts.last()] =~= parts);
        }
    }
}

// ---------------------------------------------------------------------
// Markings
// ---------------------------------------------------------------------

/// The sign between a place and the number of its tokens.
pub const TIMES: char = '\u{d7}';

/// The names can be told apart in the text of a marking: they are distinct
/// words without a times sign, and none is what stands for no tokens at all.
pub open spec fn legible(net: NetModel) -> bool {
    &&& forall|i: int, j: int|
        0 <= i < j < net.places.len() ==> (#[trigger] net.places[i]).name != (
        #[trigger] net.places[j]).name
    &&& forall|i: int|
        0 <= i < net.places.len() ==> {
            &&& text::is_word((#[trigger] net.places[i]).name)
            &&& !net.places[i].name.contains(TIMES)
            &&& net.places[i].name != "(empty)"@
        }
}

/// Up to the times sign stands the name, and nothing else is a times sign.
proof fn lemma_tokens_text(name: Seq<char>, n: u32)
    requires
        text::is_word(name),
        !name.contains(TIMES),
    ensures
        text::is_word(report::tokens_text(name, n)),
        text::before(report::tokens_text(name, n), TIMES) == name,
        n == 1 <==> !report::tokens_text(name, n).contains(TIMES),
        n != 1 ==> text::after(report::tokens_text(name, n), TIMES) == text::decimal(n as nat),
{
    reveal_strlit("\u{d7}");
    let x = report::tokens_text(name, n);
    let d = text::decimal(n as nat);
    text::lemma_find(name, TIMES);
    if text::find(name, TIMES) < name.len() {
        assert(name.contains(TIMES));
    }
    if n == 1 {
        assert(text::before(x, TIMES) =~= name);
    } else {
        let tail = "\u{d7}"@ + d;
        assert(x =~= name + tail);
        assert(tail[0] == TIMES);
        text::lemma_find_first_part(name, tail, TIMES);
        assert(text::find(tail, TIMES) == 0);
        assert(text::before(x, TIMES) =~= name);
        assert(text::after(x, TIMES) =~= d);
        assert(x[name.len() as int] == TIMES);
        text::lemma_decimal(n as nat);
        assert forall|i: int| 0 <= i < x.len() implies !text::white_space(#[trigger] x[i]) by {
            if i < name.len() {
                assert(x[i] == name[i]);
            } else if i > name.len() {
                assert(x[i] == d[i - name.len() - 1]);
                assert(text::is_digit(d[i - name.len() - 1]));
            }
        }
    }
}

/// The texts of two counts of a place differ where the counts do.
proof fn lemma_tokens_text_differ(name: Seq<char>, a: u32, b: u32)
    requires
        text::is_word(name),
        !name.contains(TIMES),
        report::tokens_text(name, a) == report::tokens_text(name, b),
    ensures
        a == b,
{
    lemma_tokens_text(name, a);
    lemma_tokens_text(name, b);
    text::lemma_decimal(a as nat);
    text::lemma_decimal(b as nat);
}

/// Each part of the text of a marking is a word that belongs to a place.
proof fn lemma_marked_places(net: NetModel, m: Seq<u32>, k: nat)
    requires
        legible(net),
        k <= net.places.len(),
    ensures
        forall|i: int|
            0 <= i < report::marked_places(net, m, k).len() ==> {
                let x = #[trigger] report::marked_places(net, m, k)[i];
                text::is_word(x) && x != "(empty)"@ && exists|p: int|
                    0 <= p < k && text::before(x, TIMES) == (#[trigger] net.places[p]).name
            },
    decreases k,
{
    let parts = report::marked_places(net, m, k);
    if k > 0 {
        lemma_marked_places(net, m, (k - 1) as nat);
        let shorter = report::marked_places(net, m, (k - 1) as nat);
        let place = net.places[k - 1];
        lemma_tokens_text(place.name, m[k - 1]);
        let last = report::tokens_text(place.name, m[k - 1]);
        reveal_strlit("(empty)");
        if last == "(empty)"@ && m[k - 1] != 1 {
            assert(last.contains(TIMES));
        }
        assert forall|i: int| 0 <= i < parts.len() implies {
            let x = #[trigger] parts[i];
            text::is_word(x) && x != "(empty)"@ && exists|p: int|
                0 <= p < k && text::before(x, TIMES) == (#[trigger] net.places[p]).name
        } by {
            if i < shorter.len() {
                let x = shorter[i];
                assert(parts[i] == x);
                let p = choose|p: int|
                    0 <= p < k - 1 && text::before(x, TIMES) == (#[trigger] net.places[p]).name;
                assert(0 <= p < k);
            } else {
                assert(parts[i] == last);
            }
        }
    }
}

/// A place that is marked in one marking only shows in the parts.
proof fn lemma_part_missing(net: NetModel, a: Seq<u32>, b: Seq<u32>, k: nat)
    requires
        legible(net),
        0 < k <= net.places.len(),
        a[k - 1] > 0,
        b[k - 1] == 0,
    ensures
        report::marked_places(net, a, k) != report::marked_places(net, b, k),
{
    let x = report::marked_places(net, a, k);
    let y = report::marked_places(net, b, (k - 1) as nat);
    if x =~= y {
        lemma_marked_places(net, b, (k - 1) as nat);
        lemma_tokens_text(net.places[k - 1].name, a[k - 1]);
        let last = x[x.len() - 1];
        assert(last == report::tokens_text(net.places[k - 1].name, a[k - 1]));
        assert(y[y.len() - 1] == last);
        let p = choose|p: int|
            0 <= p < k - 1 && text::before(last, TIMES) == (#[trigger] net.places[p]).name;
        assert(net.places[p].name != net.places[k - 1].name);
    }
}

/// The parts of a text determine the counts.
proof fn lemma_parts_differ(net: NetModel, a: Seq<u32>, b: Seq<u32>, k: nat)
    requires
        legible(net),
        k <= net.places.len(),
        report::marked_places(net, a, k) == report::marked_places(net, b, k),
    ensures
        forall|p: int| 0 <= p < k ==> #[trigger] a[p] == b[p],
    decreases k,
{
    if k > 0 {
        let x = report::marked_places(net, a, k);
        let y = report::marked_places(net, b, k);
        let i = k - 1;
        if a[i] > 0 && b[i] == 0 {
            lemma_part_missing(net, a, b, k);
        } else if a[i] == 0 && b[i] > 0 {
            lemma_part_missing(net, b, a, k);
        } else if a[i] > 0 {
            assert(x.drop_last() =~= report::marked_places(net, a, (k - 1) as nat));
            assert(y.drop_last() =~= report::marked_places(net, b, (k - 1) as nat));
            assert(x.last() == y.last());
            assert(text::is_word(net.places[i].name));
            lemma_tokens_text_differ(net.places[i].name, a[i], b[i]);
        }
        lemma_parts_differ(net, a, b, (k - 1) as nat);
    }
}

/// The text of a marking tells every two markings of a net apart, provided
/// that the names of its places can be told apart in it.
pub proof fn law_marking_text_tells_apart(net: NetModel, a: Seq<u32>, b: Seq<u32>)
    requires
        legible(net),
        a.len() == net.places.len(),
        b.len() == net.places.len(),
    ensures
        report::marking_text(net, a) == report::marking_text(net, b) <==> a == b,
{
    if report::marking_text(net, a) == report::marking_text(net, b) {
        let n = net.places.len();
        lemma_marking_words(net, a);
        lemma_marking_words(net, b);
        let x = report::marked_places(net, a, n);
        let y = report::marked_places(net, b, n);
        lemma_marked_places(net, a, n);
        lemma_marked_places(net, b, n);
        if x.len() == 0 && y.len() > 0 {
            assert(y[0] == "(empty)"@);
        } else if x.len() > 0 && y.len() == 0 {
            assert(x[0] == "(empty)"@);
        }
        assert(x =~= y);
        lemma_parts_differ(net, a, b, n);
        assert(a =~= b);
    }
}

/// The words of the text of a marking are its parts.
proof fn lemma_marking_words(net: NetModel, m: Seq<u32>)
    requires
        legible(net),
    ensures
        ({
            let parts = report::marked_places(net, m, net.places.len());
            text::words(report::marking_text(net, m)) == if parts.len() == 0 {
                seq!["(empty)"@]
            } else {
                parts
            }
        }),
{
    let parts = report::marked_places(net, m, net.places.len());
    lemma_marked_places(net, m, net.places.len());
    if parts.len() == 0 {
        reveal_strlit("(empty)");
        law_single_word("(empty)"@);
    } else {
        law_joined_words(parts);
    }
}

/// The text of a marking names the marked places and no others, in the order
/// of the net: `ps` are these places. A place with one token stands with its
/// name alone, one with more stands with its name, a times sign and their
/// number.
pub proof fn law_marking_text(net: NetModel, m: Seq<u32>) -> (r: (Seq<int>, Seq<Seq<char>>))
    ensures
        ({
            let (ps, parts) = r;
            &&& forall|i: int, j: int| 0 <= i < j < ps.len() ==> ps[i] < ps[j]
            &&& forall|i: int|
                0 <= i < ps.len() ==> 0 <= #[trigger] ps[i] < net.places.len() && m[ps[i]] > 0
            &&& forall|p: int|
                0 <= p < net.places.len() && #[trigger] m[p] > 0 ==> ps.contains(p)
            &&& parts.len() == ps.len()
            &&& forall|i: int|
                0 <= i < ps.len() ==> #[trigger] parts[i] == if m[ps[i]] == 1 {
                    net.places[ps[i]].name
                } else {
                    net.places[ps[i]].name + "\u{d7}"@ + text::decimal(m[ps[i]] as nat)
                }
        }),
        r.0.len() == 0 ==> report::marking_text(net, m) == "(empty)"@,
        r.0.len() > 0 ==> report::marking_text(net, m) == text::joined(r.1, " "@),
{
    let parts = report::marked_places(net, m, net.places.len());
    let ps = lemma_marked_list(net, m, net.places.len());
    (ps, parts)
}

proof fn lemma_marked_list(net: NetModel, m: Seq<u32>, k: nat) -> (ps: Seq<int>)
    requires
        k <= net.places.len(),
    ensures
        forall|i: int, j: int| 0 <= i < j < ps.len() ==> ps[i] < ps[j],
        forall|i: int| 0 <= i < ps.len() ==> 0 <= #[trigger] ps[i] < k && m[ps[i]] > 0,
        forall|p: int| 0 <= p < k && #[trigger] m[p] > 0 ==> ps.contains(p),
        report::marked_places(net, m, k).len() == ps.len(),
        forall|i: int|
            0 <= i < ps.len() ==> #[trigger] report::marked_places(net, m, k)[i] == if m[ps[i]]
                == 1 {
                net.places[ps[i]].name
            } else {
                net.places[ps[i]].name + "\u{d7}"@ + text::decimal(m[ps[i]] as nat)
            },
    decreases k,
{
    if k == 0 {
        Seq::empty()
    } else {
        let q = lemma_marked_list(net, m, (k - 1) as nat);
        if m[k - 1] > 0 {
            let ps = q.push(k - 1);
            assert forall|p: int| 0 <= p < k && #[trigger] m[p] > 0 implies ps.contains(p) by {
                if p < k - 1 {
                    let i = choose|i: int| 0 <= i < q.len() && q[i] == p;
                    assert(ps[i] == p);
                } else {
                    assert(ps[q.len() as int] == p);
                }
            }
            let parts = report::marked_places(net, m, k);
            let before = report::marked_places(net, m, (k - 1) as nat);
            assert forall|i: int| 0 <= i < ps.len() implies #[trigger] parts[i] == if m[ps[i]]
                == 1 {
                net.places[ps[i]].name
            } else {
                net.places[ps[i]].name + "\u{d7}"@ + text::decimal(m[ps[i]] as nat)
            } by {
                if i < q.len() {
                    assert(parts[i] == before[i]);
                    assert(ps[i] == q[i]);
                }
            }
            ps
        } else {
            q
        }
    }
}

/// The text of the arcs of a transition names its input places as often as
/// they occur, in order, then an arrow, then its output places; a side without
/// places shows as the empty set.
pub proof fn law_arcs_text(net: NetModel, t: int) -> (r: (Seq<Seq<char>>, Seq<Seq<char>>))
    ensures
        ({
            let (ins, outs) = r;
            &&& ins.len() == net.trans[t].ins.len()
            &&& forall|i: int|
                0 <= i < ins.len() ==> #[trigger] ins[i]
                    == net.places[net.trans[t].ins[i] as int].name
            &&& outs.len() == net.trans[t].outs.len()
            &&& forall|i: int|
                0 <= i < outs.len() ==> #[trigger] outs[i]
                    == net.places[net.trans[t].outs[i] as int].name
            &&& report::arcs_text(net, t) == (if ins.len() == 0 {
                "\u{2205}"@
            } else {
                text::joined(ins, " "@)
            }) + " \u{2192} "@ + (if outs.len() == 0 {
                "\u{2205}"@
            } else {
                text::joined(outs, " "@)
            })
        }),
{
    (report::arc_names(net, net.trans[t].ins), report::arc_names(net, net.trans[t].outs))
}

// ---------------------------------------------------------------------
// Reports
// ---------------------------------------------------------------------

/// The line on boundedness. Of an exploration that was not cut short it names
/// a number that no place's bound exceeds and that some place's bound is, and
/// it calls the net safe exactly if no place's bound exceeds 1.
pub proof fn law_bounded_line(a: Analysis) -> (k: u32)
    ensures
        forall|p: int| 0 <= p < a.max_tokens@.len() ==> #[trigger] a.max_tokens@[p] <= k,
        a.max_tokens@.len() > 0 ==> exists|p: int|
            0 <= p < a.max_tokens@.len() && #[trigger] a.max_tokens@[p] == k,
        a.max_tokens@.len() == 0 ==> k == 0,
        a.truncated ==> report::bounded_text(a) == " Bounded: unknown (exploration capped)\n"@,
        !a.truncated && (forall|p: int|
            0 <= p < a.max_tokens@.len() ==> #[trigger] a.max_tokens@[p] <= 1)
            ==> report::bounded_text(a) == " Bounded: yes ("@ + text::decimal(k as nat)
            + "-bounded"@ + " \u{2014} safe"@ + ")\n"@,
        !a.truncated && !(forall|p: int|
            0 <= p < a.max_tokens@.len() ==> #[trigger] a.max_tokens@[p] <= 1)
            ==> report::bounded_text(a) == " Bounded: yes ("@ + text::decimal(k as nat)
            + "-bounded"@ + ")\n"@,
{
    let k = report::largest(a.max_tokens@);
    report::lemma_largest(a.max_tokens@);
    if k <= 1 {
        assert forall|p: int| 0 <= p < a.max_tokens@.len() implies #[trigger] a.max_tokens@[p]
            <= 1 by {}
    } else {
        let p = choose|p: int| 0 <= p < a.max_tokens@.len() && a.max_tokens@[p] == k;
        assert(a.max_tokens@[p] > 1);
        assert(" Bounded: yes ("@ + text::decimal(k as nat) + "-bounded"@ + Seq::<char>::empty()
            + ")\n"@ =~= " Bounded: yes ("@ + text::decimal(k as nat) + "-bounded"@ + ")\n"@);
    }
    k
}

/// The line on the markings gives their number, and says where the exploration
/// was cut short.
pub proof fn law_states_line(a: Analysis)
    ensures
        !a.truncated ==> report::states_text(a) == " Reachable markings: "@ + text::decimal(
            a.states as nat,
        ) + "\n"@,
        a.truncated ==> report::states_text(a) == " Reachable markings: "@ + text::decimal(
            a.states as nat,
        ) + "+ (truncated \u{2014} possibly unbounded)"@ + "\n"@,
{
    assert(" Reachable markings: "@ + text::decimal(a.states as nat) + Seq::<char>::empty()
        + "\n"@ =~= " Reachable markings: "@ + text::decimal(a.states as nat) + "\n"@);
}

/// The lines on deadlocks: where there is none, one line says so, and whether
/// all markings were seen; otherwise their number comes first, and each example
/// on a line of its own.
pub proof fn law_deadlock_lines(net: NetModel, a: Analysis) -> (examples: Seq<Seq<char>>)
    ensures
        a.deadlock_count == 0 && !a.truncated ==> report::deadlocks_text(net, a)
            == " Deadlocks: none"@ + " \u{2014} deadlock-free"@ + "\n"@,
        a.deadlock_count == 0 && a.truncated ==> report::deadlocks_text(net, a)
            == " Deadlocks: none"@ + " found (within cap)"@ + "\n"@,
        examples.len() == a.deadlocks@.len(),
        forall|i: int|
            0 <= i < examples.len() ==> #[trigger] examples[i] == "   dead: "@
                + report::marking_text(net, a.deadlocks@[i]@) + "\n"@,
        a.deadlock_count > 0 ==> report::deadlocks_text(net, a) == " Deadlocks: "@ + text::decimal(
            a.deadlock_count as nat,
        ) + " dead marking(s) reachable!\n"@ + examples.flatten(),
{
    let ms = crate::analysis::marking_views(a.deadlocks@);
    lemma_examples(net, ms, ms.len())
}

proof fn lemma_examples(net: NetModel, ms: Seq<Seq<u32>>, k: nat) -> (rows: Seq<Seq<char>>)
    requires
        k <= ms.len(),
    ensures
        rows.len() == k,
        forall|i: int|
            0 <= i < k ==> #[trigger] rows[i] == "   dead: "@ + report::marking_text(net, ms[i])
                + "\n"@,
        report::examples_text(net, ms, k) == rows.flatten(),
    decreases k,
{
    if k == 0 {
        let rows = Seq::<Seq<char>>::empty();
        assert(rows.flatten() =~= Seq::empty());
        rows
    } else {
        let before = lemma_examples(net, ms, (k - 1) as nat);
        let row = "   dead: "@ + report::marking_text(net, ms[k - 1]) + "\n"@;
        lemma_flatten_push(before, row);
        before.push(row)
    }
}

/// One more row goes to the end.
pub proof fn lemma_flatten_push(rows: Seq<Seq<char>>, row: Seq<char>)
    ensures
        rows.push(row).flatten() == rows.flatten() + row,
{
    rows.lemma_flatten_and_flatten_alt_are_equivalent();
    rows.push(row).lemma_flatten_and_flatten_alt_are_equivalent();
    assert(rows.push(row).drop_last() =~= rows);
}

/// The lines on place bounds: one for each place, in order, with its name and
/// its bound.
pub proof fn law_bound_lines(net: NetModel, counts: Seq<u32>, k: nat) -> (rows: Seq<Seq<char>>)
    ensures
        rows.len() == k,
        forall|i: int|
            0 <= i < k ==> #[trigger] rows[i] == "   "@ + text::padded_right(
                net.places[i].name,
                16,
            ) + " "@ + text::decimal(counts[i] as nat) + "\n"@,
        report::bounds_text(net, counts, k) == rows.flatten(),
    decreases k,
{
    if k == 0 {
        let rows = Seq::<Seq<char>>::empty();
        assert(rows.flatten() =~= Seq::empty());
        rows
    } else {
        let before = law_bound_lines(net, counts, (k - 1) as nat);
        let row = "   "@ + text::padded_right(net.places[k - 1].name, 16) + " "@ + text::decimal(
            counts[k - 1] as nat,
        ) + "\n"@;
        lemma_flatten_push(before, row);
        before.push(row)
    }
}

/// The report has these parts in this order: how many markings, how bounded,
/// the deadlocks, and the bound of every place.
pub proof fn law_report_parts(net: NetModel, a: Analysis)
    ensures
        report::report_text(net, a) == report::states_text(a) + report::bounded_text(a)
            + report::deadlocks_text(net, a) + "\n Place bounds (max tokens seen):\n"@
            + report::bounds_text(net, a.max_tokens@, net.places.len()),
{
}

/// What the report says of a net whose exploration was not cut short is true
/// of the net: the number on its line on boundedness is the largest number of
/// tokens that a place ever holds, and the net is called safe exactly if no
/// place ever holds more than one.
pub proof fn law_bounded_line_is_true(
    net: crate::net::Net,
    m0: Seq<u32>,
    cap: nat,
    a: Analysis,
) -> (k: u32)
    requires
        crate::reach::sound(net, m0, cap, a),
        m0.len() > 0,
        !a.truncated,
    ensures
        forall|m: Seq<u32>, p: int|
            #![trigger crate::reach::reachable(net@, m0, m), m[p]]
            crate::reach::reachable(net@, m0, m) && 0 <= p < m0.len() ==> m[p] <= k,
        exists|m: Seq<u32>, p: int|
            #![trigger crate::reach::reachable(net@, m0, m), m[p]]
            crate::reach::reachable(net@, m0, m) && 0 <= p < m0.len() && m[p] == k,
        k <= 1 ==> report::bounded_text(a) == " Bounded: yes ("@ + text::decimal(k as nat)
            + "-bounded"@ + " \u{2014} safe"@ + ")\n"@,
        k > 1 ==> report::bounded_text(a) == " Bounded: yes ("@ + text::decimal(k as nat)
            + "-bounded"@ + ")\n"@,
{
    let k = law_bounded_line(a);
    report::lemma_largest(a.max_tokens@);
    crate::reach::law_bounded_by_largest(net, m0, cap, a);
    assert(a.max_tokens@.len() == m0.len());
    let p = choose|p: int| 0 <= p < a.max_tokens@.len() && #[trigger] a.max_tokens@[p] == k;
    let q = choose|q: int|
        0 <= q < a.max_tokens@.len() && a.max_tokens@[q] == report::largest(a.max_tokens@);
    assert(a.max_tokens@[q] <= k);
    assert(k == report::largest(a.max_tokens@));
    k
}

/// An analysis fits a net if it has a bound for each place, and so do its
/// examples.
pub proof fn law_fitting_analysis(net: NetModel, a: Analysis)
    ensures
        a.fits(net) <==> a.max_tokens@.len() >= net.places.len() && !(exists|i: int|
            0 <= i < a.deadlocks@.len() && (#[trigger] a.deadlocks@[i])@.len()
                < net.places.len()),
{
}

/// The exit code is 2 exactly if dead markings were counted, and otherwise 0.
pub proof fn law_exit_code_of(a: Analysis)
    ensures
        a.deadlock_count > 0 ==> report::exit_code_of(a) == 2,
        a.deadlock_count == 0 ==> report::exit_code_of(a) == 0,
{
}

} // verus!
