//! Character classes and the text operations the shell performs on a line:
//! trimming, splitting into words and reading a decimal integer.

use vstd::prelude::*;

verus! {

/// The characters that carry the Unicode `White_Space` property, which is the
/// class that `char::is_whitespace`, `str::trim` and `str::split_whitespace`
/// use.
pub open spec fn is_white_space(c: char) -> bool {
    let u = c as u32;
    ||| 0x09 <= u <= 0x0d
    ||| u == 0x20
    ||| u == 0x85
    ||| u == 0xa0
    ||| u == 0x1680
    ||| 0x2000 <= u <= 0x200a
    ||| u == 0x2028
    ||| u == 0x2029
    ||| u == 0x202f
    ||| u == 0x205f
    ||| u == 0x3000
}

/// Decides `is_white_space`.
pub fn white_space(c: char) -> (r: bool)
    ensures
        r == is_white_space(c),
{
    let u = c as u32;
    (0x09 <= u && u <= 0x0d) || u == 0x20 || u == 0x85 || u == 0xa0 || u == 0x1680 || (0x2000
        <= u && u <= 0x200a) || u == 0x2028 || u == 0x2029 || u == 0x202f || u == 0x205f || u
        == 0x3000
}

} // verus!

verus! {

/// The class `is_white_space` as a predicate value.
pub open spec fn white_space_class() -> spec_fn(char) -> bool {
    |c: char| is_white_space(c)
}

/// Holds of the pieces that hold at least one character.
pub open spec fn nonempty_piece() -> spec_fn(Seq<char>) -> bool {
    |w: Seq<char>| w.len() > 0
}

/// The pieces of `s` that lie between the characters of class `sep`, in
/// order. There is one piece more than there are such characters, and a piece
/// may be empty.
pub open spec fn split_at_chars(s: Seq<char>, sep: spec_fn(char) -> bool) -> Seq<Seq<char>>
    decreases s.len(),
{
    if s.len() == 0 {
        seq![Seq::<char>::empty()]
    } else {
        let r = split_at_chars(s.drop_last(), sep);
        if sep(s.last()) {
            r.push(Seq::<char>::empty())
        } else {
            r.update(r.len() - 1, r.last().push(s.last()))
        }
    }
}

/// The words of `s`: its maximal runs of characters that are not white space,
/// in order (what `str::split_whitespace` yields).
pub open spec fn words(s: Seq<char>) -> Seq<Seq<char>> {
    split_at_chars(s, white_space_class()).filter(nonempty_piece())
}

/// `s` without its leading white space.
pub open spec fn trim_start(s: Seq<char>) -> Seq<char>
    decreases s.len(),
{
    if s.len() > 0 && is_white_space(s[0]) {
        trim_start(s.drop_first())
    } else {
        s
    }
}

/// `s` without its trailing white space.
pub open spec fn trim_end(s: Seq<char>) -> Seq<char>
    decreases s.len(),
{
    if s.len() > 0 && is_white_space(s.last()) {
        trim_end(s.drop_last())
    } else {
        s
    }
}

/// `s` without leading and trailing white space (what `str::trim` returns).
pub open spec fn trim(s: Seq<char>) -> Seq<char> {
    trim_end(trim_start(s))
}

pub proof fn lemma_split_at_chars_nonempty(s: Seq<char>, sep: spec_fn(char) -> bool)
    ensures
        split_at_chars(s, sep).len() >= 1,
    decreases s.len(),
{
    if s.len() > 0 {
        lemma_split_at_chars_nonempty(s.drop_last(), sep);
    }
}

/// The words of `s`, each as a `String` of its own.
pub fn words_of(s: &str) -> (out: Vec<String>)
    ensures
        out@.map_values(|w: String| w@) == words(s@),
{
    let n = s.unicode_len();
    let mut out: Vec<String> = Vec::new();
    let mut start: usize = 0;
    let mut i: usize = 0;
    proof {
        assert(s@.take(0) =~= Seq::<char>::empty());
        assert(out@.map_values(|w: String| w@) =~= Seq::<Seq<char>>::empty());
        assert(s@.subrange(0, 0) =~= Seq::<char>::empty());
    }
    while i < n
        invariant
            n == s@.len(),
            start <= i <= n,
            split_at_chars(s@.take(i as int), white_space_class()).len() >= 1,
            split_at_chars(s@.take(i as int), white_space_class()).last() == s@.subrange(
                start as int,
                i as int,
            ),
            out@.map_values(|w: String| w@) == split_at_chars(
                s@.take(i as int),
                white_space_class(),
            ).drop_last().filter(nonempty_piece()),
        decreases n - i,
    {
        let c = s.get_char(i);
        let ghost old_pieces = split_at_chars(s@.take(i as int), white_space_class());
        let ghost old_out = out@.map_values(|w: String| w@);
        proof {
            assert(s@.take(i + 1).drop_last() =~= s@.take(i as int));
            assert(s@.take(i + 1).last() == c);
        }
        if white_space(c) {
            if start < i {
                let w = s.substring_char(start, i).to_string();
                out.push(w);
                proof {
                    assert(out@.map_values(|w: String| w@) =~= old_out.push(
                        s@.subrange(start as int, i as int),
                    ));
                }
            }
            proof {
                let np = old_pieces.push(Seq::<char>::empty());
                assert(split_at_chars(s@.take(i + 1), white_space_class()) == np);
                assert(np.drop_last() =~= old_pieces);
                assert(old_pieces.drop_last().push(old_pieces.last()) =~= old_pieces);
                reveal(Seq::filter);
                assert(old_pieces.filter(nonempty_piece()) == if old_pieces.last().len() > 0 {
                    old_pieces.drop_last().filter(nonempty_piece()).push(old_pieces.last())
                } else {
                    old_pieces.drop_last().filter(nonempty_piece())
                });
                assert(s@.subrange(i + 1, i + 1) =~= Seq::<char>::empty());
            }
            start = i + 1;
        } else {
            proof {
                let np = old_pieces.update(old_pieces.len() - 1, old_pieces.last().push(c));
                assert(split_at_chars(s@.take(i + 1), white_space_class()) == np);
                assert(np.drop_last() =~= old_pieces.drop_last());
                assert(s@.subrange(start as int, i + 1) =~= s@.subrange(start as int, i as int).push(c));
            }
        }
        i = i + 1;
    }
    let ghost pieces = split_at_chars(s@.take(n as int), white_space_class());
    let ghost before = out@.map_values(|w: String| w@);
    proof {
        assert(s@.take(n as int) =~= s@);
        assert(pieces.drop_last().push(pieces.last()) =~= pieces);
        reveal(Seq::filter);
        assert(pieces.filter(nonempty_piece()) == if pieces.last().len() > 0 {
            pieces.drop_last().filter(nonempty_piece()).push(pieces.last())
        } else {
            pieces.drop_last().filter(nonempty_piece())
        });
    }
    if start < n {
        let w = s.substring_char(start, n).to_string();
        out.push(w);
        proof {
            assert(out@.map_values(|w: String| w@) =~= before.push(s@.subrange(start as int, n as int)));
        }
    }
    out
}

/// `s` with leading and trailing white space removed.
pub fn trimmed(s: &str) -> (r: &str)
    ensures
        r@ == trim(s@),
{
    let n = s.unicode_len();
    let mut i: usize = 0;
    proof {
        assert(s@.subrange(0, n as int) =~= s@);
    }
    while i < n && white_space(s.get_char(i))
        invariant
            n == s@.len(),
            i <= n,
            trim_start(s@) == trim_start(s@.subrange(i as int, n as int)),
        decreases n - i,
    {
        proof {
            let t = s@.subrange(i as int, n as int);
            assert(t.drop_first() =~= s@.subrange(i + 1, n as int));
        }
        i = i + 1;
    }
    proof {
        let t = s@.subrange(i as int, n as int);
        assert(trim_start(t) == t);
    }
    let mut j: usize = n;
    while j > i && white_space(s.get_char(j - 1))
        invariant
            n == s@.len(),
            i <= j <= n,
            trim_end(s@.subrange(i as int, n as int)) == trim_end(s@.subrange(i as int, j as int)),
        decreases j,
    {
        proof {
            let t = s@.subrange(i as int, j as int);
            assert(t.drop_last() =~= s@.subrange(i as int, j - 1));
        }
        j = j - 1;
    }
    proof {
        let t = s@.subrange(i as int, j as int);
        assert(trim_end(t) == t);
    }
    s.substring_char(i, j)
}

} // verus!

verus! {

/// An ASCII decimal digit.
pub open spec fn is_digit(c: char) -> bool {
    48 <= (c as u32) <= 57
}

/// The value of a decimal digit.
pub open spec fn digit_value(c: char) -> int {
    (c as u32) - 48
}

/// The value of a string of decimal digits, most significant first.
pub open spec fn decimal_value(s: Seq<char>) -> int
    decreases s.len(),
{
    if s.len() == 0 {
        0
    } else {
        decimal_value(s.drop_last()) * 10 + digit_value(s.last())
    }
}

pub open spec fn all_digits(s: Seq<char>) -> bool {
    forall|i: int| 0 <= i < s.len() ==> is_digit(#[trigger] s[i])
}

/// Whether `s` opens with a sign character.
pub open spec fn has_sign(s: Seq<char>) -> bool {
    s.len() > 0 && (s[0] == '-' || s[0] == '+')
}

/// The digits of `s`, after its sign if it has one.
pub open spec fn unsigned_part(s: Seq<char>) -> Seq<char> {
    if has_sign(s) {
        s.drop_first()
    } else {
        s
    }
}

/// The value that `s` denotes as a signed decimal numeral.
pub open spec fn signed_value(s: Seq<char>) -> int {
    if s.len() > 0 && s[0] == '-' {
        -decimal_value(unsigned_part(s))
    } else {
        decimal_value(unsigned_part(s))
    }
}

/// The `i32` that `s` spells, as `str::parse::<i32>` reads it: an optional
/// `+` or `-`, then at least one ASCII digit and nothing else, with a value
/// that fits in an `i32`; `None` for any other string.
pub open spec fn parse_i32(s: Seq<char>) -> Option<i32> {
    let digits = unsigned_part(s);
    if digits.len() > 0 && all_digits(digits) && i32::MIN <= signed_value(s) <= i32::MAX {
        Some(signed_value(s) as i32)
    } else {
        None
    }
}

pub proof fn lemma_decimal_value_nonnegative(s: Seq<char>)
    requires
        all_digits(s),
    ensures
        decimal_value(s) >= 0,
    decreases s.len(),
{
    if s.len() > 0 {
        assert(all_digits(s.drop_last())) by {
            assert forall|i: int| 0 <= i < s.drop_last().len() implies is_digit(
                #[trigger] s.drop_last()[i],
            ) by {
                assert(s.drop_last()[i] == s[i]);
            }
        }
        lemma_decimal_value_nonnegative(s.drop_last());
        assert(is_digit(s[s.len() - 1]));
    }
}

/// A string of digits is worth at least as much as any of its prefixes.
pub proof fn lemma_decimal_value_prefix(s: Seq<char>, k: int)
    requires
        all_digits(s),
        0 <= k <= s.len(),
    ensures
        decimal_value(s.take(k)) <= decimal_value(s),
    decreases s.len() - k,
{
    if k < s.len() {
        lemma_decimal_value_prefix(s, k + 1);
        let t = s.take(k + 1);
        assert(t.drop_last() =~= s.take(k));
        assert(all_digits(s.take(k))) by {
            assert forall|i: int| 0 <= i < s.take(k).len() implies is_digit(
                #[trigger] s.take(k)[i],
            ) by {
                assert(s.take(k)[i] == s[i]);
            }
        }
        lemma_decimal_value_nonnegative(s.take(k));
        assert(is_digit(s[k]));
        assert(t.last() == s[k]);
    } else {
        assert(s.take(k) =~= s);
    }
}

/// Reads `s` as `str::parse::<i32>` does.
pub fn parse_i32_of(s: &str) -> (r: Option<i32>)
    ensures
        r == parse_i32(s@),
{
    let n = s.unicode_len();
    let mut start: usize = 0;
    let mut negative = false;
    if n > 0 {
        let c = s.get_char(0);
        if c == '-' {
            start = 1;
            negative = true;
        } else if c == '+' {
            start = 1;
        }
    }
    let ghost digits = unsigned_part(s@);
    proof {
        assert(digits =~= s@.subrange(start as int, n as int));
    }
    if start >= n {
        return None;
    }
    let mut acc: i64 = 0;
    let mut i: usize = start;
    proof {
        assert(digits.take(0) =~= Seq::<char>::empty());
    }
    while i < n
        invariant
            n == s@.len(),
            start <= i <= n,
            start < n,
            digits == s@.subrange(start as int, n as int),
            digits == unsigned_part(s@),
            negative == (s@.len() > 0 && s@[0] == '-'),
            all_digits(digits.take(i - start)),
            acc == decimal_value(digits.take(i - start)),
            0 <= acc <= 2147483648,
        decreases n - i,
    {
        let c = s.get_char(i);
        let u = c as u32;
        proof {
            let t = digits.take(i - start + 1);
            assert(t.drop_last() =~= digits.take(i - start));
            assert(t.last() == c);
        }
        if u < 48 || u > 57 {
            proof {
                assert(digits[i - start] == c);
                assert(!is_digit(digits[i - start]));
                assert(!all_digits(digits));
            }
            return None;
        }
        acc = acc * 10 + (u - 48) as i64;
        proof {
            let t = digits.take(i - start + 1);
            assert forall|k: int| 0 <= k < t.len() implies is_digit(#[trigger] t[k]) by {
                if k < t.len() - 1 {
                    assert(t[k] == digits.take(i - start)[k]);
                }
            }
        }
        if acc > 2147483648 {
            proof {
                assert(acc == decimal_value(digits.take(i - start + 1)));
                if all_digits(digits) {
                    lemma_decimal_value_prefix(digits, i - start + 1);
                    assert(decimal_value(digits) > 2147483648);
                }
            }
            return None;
        }
        i = i + 1;
    }
    proof {
        assert(digits.take(n - start) =~= digits);
    }
    if negative {
        Some((-acc) as i32)
    } else if acc <= 2147483647 {
        Some(acc as i32)
    } else {
        None
    }
}

} // verus!

verus! {

/// Whether two strings hold the same characters.
pub fn same_text(a: &str, b: &str) -> (r: bool)
    ensures
        r == (a@ == b@),
{
    let n = a.unicode_len();
    let m = b.unicode_len();
    if n != m {
        return false;
    }
    let mut i: usize = 0;
    while i < n
        invariant
            n == a@.len(),
            n == b@.len(),
            i <= n,
            forall|k: int| 0 <= k < i ==> a@[k] == b@[k],
        decreases n - i,
    {
        if a.get_char(i) != b.get_char(i) {
            return false;
        }
        i = i + 1;
    }
    proof {
        assert(a@ =~= b@);
    }
    true
}

} // verus!

verus! {

/// No piece holds a character of the separating class.
pub proof fn lemma_split_at_chars_pieces(s: Seq<char>, sep: spec_fn(char) -> bool)
    ensures
        forall|i: int, j: int|
            0 <= i < split_at_chars(s, sep).len() && 0 <= j < split_at_chars(s, sep)[i].len()
                ==> !sep(#[trigger] split_at_chars(s, sep)[i][j]),
    decreases s.len(),
{
    if s.len() > 0 {
        let init = s.drop_last();
        lemma_split_at_chars_pieces(init, sep);
        lemma_split_at_chars_nonempty(init, sep);
        let r = split_at_chars(init, sep);
        let p = split_at_chars(s, sep);
        assert forall|i: int, j: int| 0 <= i < p.len() && 0 <= j < p[i].len() implies !sep(
            #[trigger] p[i][j],
        ) by {
            if sep(s.last()) {
                if i < r.len() {
                    assert(p[i] == r[i]);
                }
            } else {
                if i < r.len() - 1 {
                    assert(p[i] == r[i]);
                } else {
                    assert(p[i] == r[i].push(s.last()));
                    if j < r[i].len() {
                        assert(p[i][j] == r[i][j]);
                    }
                }
            }
        }
    }
}

/// Every word holds at least one character and no white space.
pub proof fn lemma_words_shape(s: Seq<char>)
    ensures
        forall|i: int| 0 <= i < words(s).len() ==> (#[trigger] words(s)[i]).len() > 0,
        forall|i: int, j: int|
            0 <= i < words(s).len() && 0 <= j < words(s)[i].len() ==> !is_white_space(
                #[trigger] words(s)[i][j],
            ),
{
    let pieces = split_at_chars(s, white_space_class());
    lemma_split_at_chars_pieces(s, white_space_class());
    assert forall|i: int| 0 <= i < words(s).len() implies (#[trigger] words(s)[i]).len() > 0 by {
        pieces.lemma_filter_pred(nonempty_piece(), i);
    }
    assert forall|i: int, j: int|
        0 <= i < words(s).len() && 0 <= j < words(s)[i].len() implies !is_white_space(
        #[trigger] words(s)[i][j],
    ) by {
        let w = words(s)[i];
        assert(pieces.filter(nonempty_piece()).contains(w));
        pieces.lemma_filter_contains_rev(nonempty_piece(), w);
        let k = choose|k: int| 0 <= k < pieces.len() && pieces[k] == w;
        assert(!white_space_class()(pieces[k][j]));
    }
}

/// Trimming removes all leading and trailing white space, and trimming
/// again changes nothing.
pub proof fn lemma_trim_shape(s: Seq<char>)
    ensures
        trim(s).len() > 0 ==> !is_white_space(trim(s)[0]) && !is_white_space(trim(s).last()),
        trim(trim(s)) == trim(s),
{
    lemma_trim_start_shape(s);
    let t = trim_start(s);
    lemma_trim_end_shape(t);
    let u = trim_end(t);
    lemma_trim_end_keeps_start(t);
    assert(trim_start(u) == u);
    lemma_trim_end_idempotent(u);
}

proof fn lemma_trim_start_shape(s: Seq<char>)
    ensures
        trim_start(s).len() > 0 ==> !is_white_space(trim_start(s)[0]),
    decreases s.len(),
{
    if s.len() > 0 && is_white_space(s[0]) {
        lemma_trim_start_shape(s.drop_first());
    }
}

proof fn lemma_trim_end_shape(s: Seq<char>)
    ensures
        trim_end(s).len() > 0 ==> !is_white_space(trim_end(s).last()),
        trim_end(s).len() <= s.len(),
        forall|i: int| 0 <= i < trim_end(s).len() ==> #[trigger] trim_end(s)[i] == s[i],
    decreases s.len(),
{
    if s.len() > 0 && is_white_space(s.last()) {
        lemma_trim_end_shape(s.drop_last());
    }
}

/// Trimming the end of a text that does not start with white space leaves a
/// text that does not either.
proof fn lemma_trim_end_keeps_start(s: Seq<char>)
    requires
        s.len() > 0 ==> !is_white_space(s[0]),
    ensures
        trim_start(trim_end(s)) == trim_end(s),
{
    lemma_trim_end_shape(s);
}

proof fn lemma_trim_end_idempotent(s: Seq<char>)
    ensures
        trim_end(trim_end(s)) == trim_end(s),
{
    lemma_trim_end_shape(s);
}

} // verus!

verus! {

proof fn lemma_split_after_separator(c: char, t: Seq<char>, sep: spec_fn(char) -> bool)
    requires
        sep(c),
    ensures
        split_at_chars(seq![c] + t, sep) == seq![Seq::<char>::empty()] + split_at_chars(t, sep),
    decreases t.len(),
{
    let s = seq![c] + t;
    if t.len() == 0 {
        assert(s.drop_last() =~= Seq::<char>::empty());
        assert(s.last() == c);
        assert(t =~= Seq::<char>::empty());
        assert(split_at_chars(t, sep) == seq![Seq::<char>::empty()]);
        assert(split_at_chars(s, sep) == seq![Seq::<char>::empty()].push(Seq::<char>::empty()));
        assert(split_at_chars(s, sep) =~= seq![Seq::<char>::empty()] + split_at_chars(t, sep));
    } else {
        let t0 = t.drop_last();
        lemma_split_after_separator(c, t0, sep);
        lemma_split_at_chars_nonempty(t0, sep);
        assert(s.drop_last() =~= seq![c] + t0);
        assert(s.last() == t.last());
        let x = split_at_chars(t0, sep);
        let y = seq![Seq::<char>::empty()] + x;
        assert(split_at_chars(s.drop_last(), sep) == y);
        if sep(t.last()) {
            assert(split_at_chars(t, sep) == x.push(Seq::<char>::empty()));
            assert(split_at_chars(s, sep) == y.push(Seq::<char>::empty()));
            assert(y.push(Seq::<char>::empty()) =~= seq![Seq::<char>::empty()] + x.push(
                Seq::<char>::empty(),
            ));
        } else {
            assert(y.last() == x.last());
            assert(split_at_chars(t, sep) == x.update(x.len() - 1, x.last().push(t.last())));
            assert(split_at_chars(s, sep) == y.update(y.len() - 1, y.last().push(t.last())));
            assert(y.update(y.len() - 1, y.last().push(t.last())) =~= seq![Seq::<char>::empty()]
                + x.update(x.len() - 1, x.last().push(t.last())));
        }
    }
}

proof fn lemma_words_drop_leading(s: Seq<char>)
    requires
        s.len() > 0,
        is_white_space(s[0]),
    ensures
        words(s) == words(s.drop_first()),
{
    let t = s.drop_first();
    assert(s =~= seq![s[0]] + t);
    lemma_split_after_separator(s[0], t, white_space_class());
    let e = seq![Seq::<char>::empty()];
    let x = split_at_chars(t, white_space_class());
    Seq::filter_distributes_over_add(e, x, nonempty_piece());
    reveal(Seq::filter);
    assert(e.drop_last() =~= Seq::<Seq<char>>::empty());
    assert(Seq::<Seq<char>>::empty().filter(nonempty_piece()) =~= Seq::<Seq<char>>::empty());
    assert(e.last() == Seq::<char>::empty());
    assert(!nonempty_piece()(e.last()));
    assert(e.filter(nonempty_piece()) == e.drop_last().filter(nonempty_piece()));
    assert(e.filter(nonempty_piece()) =~= Seq::<Seq<char>>::empty());
    assert(e.filter(nonempty_piece()) + x.filter(nonempty_piece()) =~= x.filter(nonempty_piece()));
}

proof fn lemma_words_drop_trailing(s: Seq<char>)
    requires
        s.len() > 0,
        is_white_space(s.last()),
    ensures
        words(s) == words(s.drop_last()),
{
    let x = split_at_chars(s.drop_last(), white_space_class());
    assert(split_at_chars(s, white_space_class()) == x.push(Seq::<char>::empty()));
    x.lemma_filter_push(Seq::<char>::empty(), nonempty_piece());
}

proof fn lemma_words_trim_start(s: Seq<char>)
    ensures
        words(trim_start(s)) == words(s),
    decreases s.len(),
{
    if s.len() > 0 && is_white_space(s[0]) {
        lemma_words_drop_leading(s);
        lemma_words_trim_start(s.drop_first());
    }
}

proof fn lemma_words_trim_end(s: Seq<char>)
    ensures
        words(trim_end(s)) == words(s),
    decreases s.len(),
{
    if s.len() > 0 && is_white_space(s.last()) {
        lemma_words_drop_trailing(s);
        lemma_words_trim_end(s.drop_last());
    }
}

/// Trimming a line does not change its words.
pub proof fn lemma_words_of_trimmed(s: Seq<char>)
    ensures
        words(trim(s)) == words(s),
{
    lemma_words_trim_start(s);
    lemma_words_trim_end(trim_start(s));
}

} // verus!

verus! {

/// Whether `s` holds no NUL character (a C string cannot hold one).
pub open spec fn nul_free(s: Seq<char>) -> bool {
    forall|i: int| 0 <= i < s.len() ==> s[i] != '\0'
}

/// Decides `nul_free`.
pub fn is_nul_free(s: &str) -> (r: bool)
    ensures
        r == nul_free(s@),
{
    let n = s.unicode_len();
    let mut i: usize = 0;
    while i < n
        invariant
            n == s@.len(),
            i <= n,
            forall|k: int| 0 <= k < i ==> s@[k] != '\0',
        decreases n - i,
    {
        if s.get_char(i) == '\0' {
            return false;
        }
        i = i + 1;
    }
    true
}

} // verus!

verus! {

/// A text is NUL-free exactly when no character of it is NUL; no other
/// character matters.
pub proof fn lemma_nul_free_is_no_nul(s: Seq<char>)
    ensures
        nul_free(s) <==> !s.contains('\0'),
        forall|t: Seq<char>| nul_free(s + t) <==> nul_free(s) && nul_free(t),
        forall|c: char| c != '\0' ==> #[trigger] nul_free(seq![c]),
{
    assert forall|t: Seq<char>| nul_free(s + t) <==> nul_free(s) && nul_free(t) by {
        if nul_free(s + t) {
            assert forall|i: int| 0 <= i < s.len() implies s[i] != '\0' by {
                assert((s + t)[i] == s[i]);
            }
            assert forall|i: int| 0 <= i < t.len() implies t[i] != '\0' by {
                assert((s + t)[s.len() + i] == t[i]);
            }
        }
        if nul_free(s) && nul_free(t) {
            assert forall|i: int| 0 <= i < (s + t).len() implies (s + t)[i] != '\0' by {
                if i < s.len() {
                    assert((s + t)[i] == s[i]);
                } else {
                    assert((s + t)[i] == t[i - s.len()]);
                }
            }
        }
    }
    assert forall|c: char| c != '\0' implies #[trigger] nul_free(seq![c]) by {
        assert(seq![c][0] == c);
    }
    if s.contains('\0') {
        let i = choose|i: int| 0 <= i < s.len() && s[i] == '\0';
        assert(!nul_free(s));
    }
}

} // verus!
