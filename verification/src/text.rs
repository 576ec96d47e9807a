//! Plain-text helpers the record codec is built on: character vectors as the
//! working form of a line, whitespace trimming, splitting text into lines,
//! and decimal numerals.

use vstd::prelude::*;
use vstd::string::StrSliceExecFns;
use vstd::string::StringExecFns;

verus! {

/// The characters trimmed from the ends of a line: space, tab and the
/// carriage return that a CRLF line ending leaves behind.
pub open spec fn is_ws(c: char) -> bool {
    c == ' ' || c == '\t' || c == '\r'
}

/// Runtime test matching `is_ws`.
pub fn is_ws_exec(c: char) -> (r: bool)
    ensures
        r == is_ws(c),
{
    c == ' ' || c == '\t' || c == '\r'
}

/// The text with leading whitespace dropped.
pub open spec fn trim_front(s: Seq<char>) -> Seq<char>
    decreases s.len(),
{
    if s.len() > 0 && is_ws(s[0]) {
        trim_front(s.drop_first())
    } else {
        s
    }
}

/// The text with trailing whitespace dropped.
pub open spec fn trim_back(s: Seq<char>) -> Seq<char>
    decreases s.len(),
{
    if s.len() > 0 && is_ws(s[s.len() - 1]) {
        trim_back(s.drop_last())
    } else {
        s
    }
}

/// The text with whitespace dropped from both ends.
pub open spec fn trimmed(s: Seq<char>) -> Seq<char> {
    trim_back(trim_front(s))
}

/// The text holds no newline: it is a single line.
pub open spec fn nl_free(s: Seq<char>) -> bool {
    forall|j: int| 0 <= j < s.len() ==> s[j] != '\n'
}

/// A text that can stand as a value line or a paragraph of a record: it is
/// not blank, it is a single line, and trimming does not change it.
pub open spec fn value_ok(s: Seq<char>) -> bool {
    &&& s.len() > 0
    &&& nl_free(s)
    &&& !is_ws(s[0])
    &&& !is_ws(s[s.len() - 1])
}

/// Copies the characters of a string into a vector.
pub fn str_chars(s: &str) -> (r: Vec<char>)
    ensures
        r@ == s@,
{
    let n: usize = s.unicode_len();
    let mut v: Vec<char> = Vec::new();
    let mut i: usize = 0;
    while i < n
        invariant
            i <= n,
            n == s@.len(),
            v@ == s@.take(i as int),
        decreases n - i,
    {
        v.push(s.get_char(i));
        assert(v@ =~= s@.take(i + 1));
        i = i + 1;
    }
    assert(v@ =~= s@);
    v
}

/// Relies on std's `String::push`: appends exactly the one character.
#[verifier::external_body]
pub(crate) fn push_char(s: &mut String, c: char)
    ensures
        final(s)@ == old(s)@.push(c),
{
    s.push(c);
}

/// Builds the string holding exactly these characters.
pub fn chars_to_string(v: &Vec<char>) -> (r: String)
    ensures
        r@ == v@,
{
    let mut s = String::new();
    let mut i: usize = 0;
    while i < v.len()
        invariant
            i <= v.len(),
            s@ == v@.take(i as int),
        decreases v.len() - i,
    {
        push_char(&mut s, v[i]);
        assert(s@ =~= v@.take(i + 1));
        i = i + 1;
    }
    assert(s@ =~= v@);
    s
}

/// Compares a character vector against a string.
pub fn chars_eq_str(v: &Vec<char>, s: &str) -> (r: bool)
    ensures
        r == (v@ == s@),
{
    let n: usize = s.unicode_len();
    if v.len() != n {
        assert(v@ != s@);
        return false;
    }
    let mut i: usize = 0;
    while i < n
        invariant
            i <= n,
            n == s@.len(),
            n == v@.len(),
            forall|j: int| 0 <= j < i ==> v@[j] == s@[j],
        decreases n - i,
    {
        if v[i] != s.get_char(i) {
            assert(v@ != s@);
            return false;
        }
        i = i + 1;
    }
    assert(v@ =~= s@);
    true
}

/// Copies a vector of characters.
pub fn copy_chars(v: &Vec<char>) -> (r: Vec<char>)
    ensures
        r@ == v@,
{
    let mut w: Vec<char> = Vec::new();
    let mut i: usize = 0;
    while i < v.len()
        invariant
            i <= v.len(),
            w@ == v@.take(i as int),
        decreases v.len() - i,
    {
        w.push(v[i]);
        assert(w@ =~= v@.take(i + 1));
        i = i + 1;
    }
    assert(w@ =~= v@);
    w
}

/// Drops the whitespace at both ends of a line.
pub fn trim_chars(s: &Vec<char>) -> (r: Vec<char>)
    ensures
        r@ == trimmed(s@),
{
    let mut v = copy_chars(s);
    while v.len() > 0 && is_ws_exec(v[0])
        invariant
            trim_front(v@) == trim_front(s@),
        decreases v.len(),
    {
        assert(v@.remove(0) =~= v@.drop_first());
        v.remove(0);
    }
    assert(v@ == trim_front(s@));
    while v.len() > 0 && is_ws_exec(v[v.len() - 1])
        invariant
            trim_back(v@) == trim_back(trim_front(s@)),
        decreases v.len(),
    {
        assert(v@.take(v@.len() - 1) =~= v@.drop_last());
        v.pop();
    }
    assert(v@ == trim_back(trim_front(s@)));
    v
}

/// Index of the first newline, or the length of the text where there is none.
pub open spec fn first_nl(s: Seq<char>) -> nat
    decreases s.len(),
{
    if s.len() == 0 {
        0
    } else if s[0] == '\n' {
        0
    } else {
        1 + first_nl(s.drop_first())
    }
}

/// `first_nl` points at the first newline: nothing before it is one, and it
/// is one itself unless it is the length.
pub proof fn lemma_first_nl(s: Seq<char>)
    ensures
        first_nl(s) <= s.len(),
        forall|i: int| 0 <= i < first_nl(s) ==> s[i] != '\n',
        first_nl(s) < s.len() ==> s[first_nl(s) as int] == '\n',
    decreases s.len(),
{
    if s.len() == 0 {
    } else if s[0] == '\n' {
    } else {
        lemma_first_nl(s.drop_first());
        assert forall|i: int| 0 <= i < first_nl(s) implies s[i] != '\n' by {
            if i > 0 {
                assert(s.drop_first()[i - 1] != '\n');
            }
        }
    }
}

/// Where the text is scanned and the first newline is found at `m`, that is
/// what `first_nl` returns.
pub proof fn lemma_first_nl_at(s: Seq<char>, m: nat)
    requires
        m <= s.len(),
        forall|i: int| 0 <= i < m ==> s[i] != '\n',
        m < s.len() ==> s[m as int] == '\n',
    ensures
        first_nl(s) == m,
    decreases m,
{
    if m == 0 {
    } else {
        assert(s[0] != '\n');
        assert forall|i: int| 0 <= i < m - 1 implies s.drop_first()[i] != '\n' by {
            assert(s[i + 1] != '\n');
        }
        lemma_first_nl_at(s.drop_first(), (m - 1) as nat);
    }
}

/// The lines of a text: the pieces between newlines, in order.  A text with
/// no newline is one line; every newline ends a line, so text ending in a
/// newline has a final empty line.
pub open spec fn line_split(s: Seq<char>) -> Seq<Seq<char>>
    decreases s.len(),
    via line_split_dec
{
    if first_nl(s) == s.len() {
        seq![s]
    } else {
        seq![s.take(first_nl(s) as int)] + line_split(s.skip(first_nl(s) as int + 1))
    }
}

#[via_fn]
proof fn line_split_dec(s: Seq<char>) {
    lemma_first_nl(s);
}

/// The text whose lines these are: each line followed by a newline.
pub open spec fn join_lines(ls: Seq<Seq<char>>) -> Seq<char>
    decreases ls.len(),
{
    if ls.len() == 0 {
        Seq::empty()
    } else {
        ls[0] + seq!['\n'] + join_lines(ls.drop_first())
    }
}

/// Splitting the joined text recovers the lines, with the final empty line
/// that the closing newline opens.
pub proof fn lemma_split_join(ls: Seq<Seq<char>>)
    requires
        forall|i: int| 0 <= i < ls.len() ==> nl_free(#[trigger] ls[i]),
    ensures
        line_split(join_lines(ls)) == ls.push(Seq::<char>::empty()),
    decreases ls.len(),
{
    if ls.len() == 0 {
        let s = join_lines(ls);
        assert(s.len() == 0);
        assert(line_split(s) =~= seq![s]);
        assert(line_split(s) =~~= ls.push(Seq::<char>::empty()));
    } else {
        let l0 = ls[0];
        let rest = join_lines(ls.drop_first());
        let s = join_lines(ls);
        assert(s == l0 + seq!['\n'] + rest);
        assert(nl_free(ls[0]));
        assert forall|i: int| 0 <= i < l0.len() implies s[i] != '\n' by {
            assert(s[i] == l0[i]);
        }
        assert(s[l0.len() as int] == '\n');
        lemma_first_nl_at(s, l0.len());
        assert(s.take(l0.len() as int) =~= l0);
        assert(s.skip(l0.len() as int + 1) =~= rest);
        lemma_split_join(ls.drop_first());
        assert(line_split(s) == seq![l0] + ls.drop_first().push(Seq::<char>::empty()));
        assert(line_split(s) =~~= ls.push(Seq::<char>::empty()));
    }
}

/// Splits a text into its lines.
pub fn split_lines(s: &Vec<char>) -> (r: Vec<Vec<char>>)
    ensures
        r.deep_view() == line_split(s@),
{
    let mut out: Vec<Vec<char>> = Vec::new();
    let n: usize = s.len();
    let mut pos: usize = 0;
    proof {
        assert(s@.skip(0) =~= s@);
        assert(out.deep_view() =~~= Seq::<Seq<char>>::empty());
        assert(out.deep_view() + line_split(s@) =~~= line_split(s@));
    }
    loop
        invariant_except_break
            pos <= n,
            n == s@.len(),
            line_split(s@) == out.deep_view() + line_split(s@.skip(pos as int)),
        ensures
            out.deep_view() == line_split(s@),
        decreases n - pos,
    {
        let mut j: usize = pos;
        while j < n && s[j] != '\n'
            invariant
                pos <= j <= n,
                n == s@.len(),
                forall|k: int| pos <= k < j ==> s@[k] != '\n',
            decreases n - j,
        {
            j = j + 1;
        }
        let mut chunk: Vec<char> = Vec::new();
        let mut k: usize = pos;
        while k < j
            invariant
                pos <= k <= j <= n,
                n == s@.len(),
                chunk@ == s@.subrange(pos as int, k as int),
            decreases j - k,
        {
            chunk.push(s[k]);
            assert(chunk@ =~= s@.subrange(pos as int, k + 1));
            k = k + 1;
        }
        let suffix: Ghost<Seq<char>> = Ghost(s@.skip(pos as int));
        proof {
            assert forall|i: int| 0 <= i < j - pos implies suffix@[i] != '\n' by {
                assert(s@[pos + i] != '\n');
            }
            if j < n {
                assert(suffix@[(j - pos) as int] == '\n');
            }
            lemma_first_nl_at(suffix@, (j - pos) as nat);
            assert(suffix@.take((j - pos) as int) =~= s@.subrange(pos as int, j as int));
        }
        let old_out: Ghost<Seq<Seq<char>>> = Ghost(out.deep_view());
        out.push(chunk);
        proof {
            assert(out.deep_view() =~~= old_out@.push(chunk@));
        }
        if j == n {
            proof {
                assert(first_nl(suffix@) == suffix@.len());
                assert(line_split(suffix@) == seq![suffix@]);
                assert(suffix@ =~= chunk@);
                assert(out.deep_view() =~~= old_out@ + line_split(suffix@));
            }
            break;
        }
        proof {
            assert(first_nl(suffix@) < suffix@.len());
            assert(line_split(suffix@) == seq![chunk@] + line_split(
                suffix@.skip((j - pos) as int + 1),
            ));
            assert(suffix@.skip((j - pos) as int + 1) =~= s@.skip(j as int + 1));
            assert(out.deep_view() + line_split(s@.skip(j as int + 1)) =~~= old_out@ + line_split(
                suffix@,
            ));
        }
        pos = j + 1;
    }
    out
}

/// `trim_front` drops a prefix: the result is a suffix of the text whose
/// first character, if any, is not whitespace.
pub proof fn lemma_trim_front_props(s: Seq<char>)
    ensures
        trim_front(s).len() <= s.len(),
        trim_front(s) == s.skip(s.len() - trim_front(s).len()),
        trim_front(s).len() > 0 ==> !is_ws(trim_front(s)[0]),
    decreases s.len(),
{
    if s.len() > 0 && is_ws(s[0]) {
        lemma_trim_front_props(s.drop_first());
        let r = trim_front(s);
        assert(s.drop_first().skip(s.drop_first().len() - r.len()) =~= s.skip(s.len() - r.len()));
    } else {
        assert(s.skip(0) =~= s);
    }
}

/// `trim_back` drops a suffix: the result is a prefix of the text whose
/// last character, if any, is not whitespace.
pub proof fn lemma_trim_back_props(s: Seq<char>)
    ensures
        trim_back(s).len() <= s.len(),
        trim_back(s) == s.take(trim_back(s).len() as int),
        trim_back(s).len() > 0 ==> !is_ws(trim_back(s)[trim_back(s).len() - 1]),
    decreases s.len(),
{
    if s.len() > 0 && is_ws(s[s.len() - 1]) {
        lemma_trim_back_props(s.drop_last());
        let r = trim_back(s);
        assert(s.drop_last().take(r.len() as int) =~= s.take(r.len() as int));
    } else {
        assert(s.take(s.len() as int) =~= s);
    }
}

/// A non-blank trimmed line is a value: where the line held no newline,
/// neither does its trim, and the ends are not whitespace.
pub proof fn lemma_trimmed_value(s: Seq<char>)
    requires
        nl_free(s),
        trimmed(s).len() > 0,
    ensures
        value_ok(trimmed(s)),
{
    lemma_trim_front_props(s);
    lemma_trim_back_props(trim_front(s));
    let f = trim_front(s);
    let t = trimmed(s);
    assert forall|j: int| 0 <= j < t.len() implies t[j] != '\n' by {
        assert(t[j] == s[j + (s.len() - f.len())]);
    }
    assert(t[0] == f[0]);
}

/// Trimming does not change a value.
pub proof fn lemma_value_trimmed(s: Seq<char>)
    requires
        value_ok(s),
    ensures
        trimmed(s) == s,
{
    assert(trim_front(s) == s);
    assert(trim_back(s) == s);
}

/// Every line that splitting yields is free of newlines.
pub proof fn lemma_line_split_nl_free(s: Seq<char>)
    ensures
        forall|i: int| 0 <= i < line_split(s).len() ==> nl_free(#[trigger] line_split(s)[i]),
    decreases s.len(),
{
    lemma_first_nl(s);
    let p = first_nl(s);
    if p == s.len() {
        assert(line_split(s)[0] == s);
    } else {
        lemma_line_split_nl_free(s.skip(p as int + 1));
        let head = s.take(p as int);
        assert(nl_free(head));
        assert forall|i: int| 0 <= i < line_split(s).len() implies nl_free(
            #[trigger] line_split(s)[i],
        ) by {
            if i > 0 {
                assert(line_split(s)[i] == line_split(s.skip(p as int + 1))[i - 1]);
            }
        }
    }
}

/// Writes the text whose lines these are.
pub fn join_to_string(lines: &Vec<Vec<char>>) -> (r: String)
    ensures
        r@ == join_lines(lines.deep_view()),
{
    let ghost ld = lines.deep_view();
    let mut s = String::new();
    let mut i: usize = 0;
    proof {
        assert(ld.skip(0) =~= ld);
        assert(s@ + join_lines(ld) =~= join_lines(ld));
    }
    while i < lines.len()
        invariant
            i <= ld.len(),
            ld == lines.deep_view(),
            join_lines(ld) == s@ + join_lines(ld.skip(i as int)),
        decreases ld.len() - i,
    {
        let ghost s0 = s@;
        let piece = chars_to_string(&lines[i]);
        s.append(piece.as_str());
        push_char(&mut s, '\n');
        proof {
            assert(ld.skip(i as int).drop_first() =~= ld.skip(i as int + 1));
            assert(ld.skip(i as int)[0] == ld[i as int]);
            assert(ld[i as int] == lines@[i as int].deep_view());
            assert(lines@[i as int].deep_view() =~= lines@[i as int]@);
            assert(s@ =~= s0 + (ld[i as int] + seq!['\n']));
            assert(join_lines(ld.skip(i as int)) == ld[i as int] + seq!['\n'] + join_lines(
                ld.skip(i as int + 1),
            ));
            assert(s0 + (ld[i as int] + seq!['\n'] + join_lines(ld.skip(i as int + 1))) =~= (s0 + (
            ld[i as int] + seq!['\n'])) + join_lines(ld.skip(i as int + 1)));
        }
        i = i + 1;
    }
    proof {
        assert(ld.skip(ld.len() as int) =~= Seq::<Seq<char>>::empty());
        assert(join_lines(ld) =~= s@);
    }
    s
}

/// A decimal digit.
pub open spec fn is_digit(c: char) -> bool {
    48 <= c as u32 <= 57
}

/// The value of a decimal digit.
pub open spec fn digit_val(c: char) -> int {
    c as u32 - 48
}

/// Every character is a decimal digit.
pub open spec fn all_digits(s: Seq<char>) -> bool {
    forall|i: int| 0 <= i < s.len() ==> is_digit(#[trigger] s[i])
}

/// The numerals the codec accepts: at least one digit, digits only.
pub open spec fn numeral_ok(s: Seq<char>) -> bool {
    s.len() > 0 && all_digits(s)
}

/// The number a numeral stands for.
pub open spec fn dec_val(s: Seq<char>) -> int
    decreases s.len(),
{
    if s.len() == 0 {
        0
    } else {
        dec_val(s.drop_last()) * 10 + digit_val(s.last())
    }
}

/// What reading a text as a `u32` yields: the value of the numeral, or
/// nothing where the text is not a numeral or the value does not fit.
pub open spec fn parse_u32_spec(s: Seq<char>) -> Option<u32> {
    if numeral_ok(s) && dec_val(s) <= u32::MAX as int {
        Some(dec_val(s) as u32)
    } else {
        None
    }
}

/// A digit is not a newline and not whitespace.
pub proof fn lemma_digit_plain(c: char)
    requires
        is_digit(c),
    ensures
        c != '\n',
        !is_ws(c),
{
}

proof fn lemma_dec_val_nonneg(s: Seq<char>)
    requires
        all_digits(s),
    ensures
        dec_val(s) >= 0,
    decreases s.len(),
{
    if s.len() > 0 {
        assert(is_digit(s[s.len() - 1]));
        assert(all_digits(s.drop_last()));
        lemma_dec_val_nonneg(s.drop_last());
    }
}

/// A numeral is worth at least any of its prefixes.
proof fn lemma_dec_val_prefix(s: Seq<char>, i: int)
    requires
        all_digits(s),
        0 <= i <= s.len(),
    ensures
        dec_val(s.take(i)) <= dec_val(s),
    decreases s.len() - i,
{
    if i == s.len() {
        assert(s.take(i) =~= s);
    } else {
        let t = s.drop_last();
        assert(all_digits(t));
        assert(s.take(i) =~= t.take(i));
        lemma_dec_val_prefix(t, i);
        lemma_dec_val_nonneg(t);
        assert(is_digit(s.last()));
        assert(dec_val(t) * 10 >= dec_val(t)) by (nonlinear_arith)
            requires
                dec_val(t) >= 0,
        ;
    }
}

/// Reads a numeral as a `u32`.
pub fn parse_u32(s: &Vec<char>) -> (r: Option<u32>)
    ensures
        r == parse_u32_spec(s@),
{
    if s.len() == 0 {
        return None;
    }
    let mut acc: u64 = 0;
    let mut i: usize = 0;
    while i < s.len()
        invariant
            i <= s@.len(),
            all_digits(s@.take(i as int)),
            acc == dec_val(s@.take(i as int)),
            acc <= u32::MAX,
        decreases s@.len() - i,
    {
        let u: u32 = s[i] as u32;
        if u < 48 || u > 57 {
            assert(!is_digit(s@[i as int]));
            assert(!all_digits(s@));
            return None;
        }
        assert(s@.take(i + 1).drop_last() =~= s@.take(i as int));
        assert(s@.take(i + 1).last() == s@[i as int]);
        assert(all_digits(s@.take(i + 1)));
        acc = acc * 10 + (u - 48) as u64;
        assert(acc == dec_val(s@.take(i + 1)));
        if acc > u32::MAX as u64 {
            proof {
                if all_digits(s@) {
                    lemma_dec_val_prefix(s@, i + 1);
                }
            }
            return None;
        }
        i = i + 1;
    }
    assert(s@.take(s@.len() as int) =~= s@);
    Some(acc as u32)
}

/// The character of a decimal digit.
pub open spec fn digit_char(d: int) -> char {
    if d == 0 {
        '0'
    } else if d == 1 {
        '1'
    } else if d == 2 {
        '2'
    } else if d == 3 {
        '3'
    } else if d == 4 {
        '4'
    } else if d == 5 {
        '5'
    } else if d == 6 {
        '6'
    } else if d == 7 {
        '7'
    } else if d == 8 {
        '8'
    } else {
        '9'
    }
}

/// The canonical numeral of a number: no sign, no leading zero.
pub open spec fn dec_chars(n: nat) -> Seq<char>
    decreases n,
    via dec_chars_dec
{
    if n < 10 {
        seq![digit_char(n as int)]
    } else {
        dec_chars(n / 10).push(digit_char((n % 10) as int))
    }
}

#[via_fn]
proof fn dec_chars_dec(n: nat) {
    if n >= 10 {
        assert(n / 10 < n) by (nonlinear_arith)
            requires
                n >= 10,
        ;
    }
}

/// The canonical numeral is digits only and reads back to its number.
pub proof fn lemma_dec_chars_val(n: nat)
    ensures
        numeral_ok(dec_chars(n)),
        dec_val(dec_chars(n)) == n,
    decreases n,
{
    if n < 10 {
        let s = dec_chars(n);
        assert(s.drop_last() =~= Seq::<char>::empty());
        assert(dec_val(Seq::<char>::empty()) == 0);
        assert(is_digit(digit_char(n as int)));
        assert(digit_val(digit_char(n as int)) == n);
        assert(dec_val(s) == 0 * 10 + digit_val(s.last()));
    } else {
        lemma_dec_chars_val(n / 10);
        let t = dec_chars(n / 10);
        let d = (n % 10) as int;
        assert(0 <= d < 10);
        let s = t.push(digit_char(d));
        assert(s.drop_last() =~= t);
        assert(s.last() == digit_char(d));
        assert(is_digit(digit_char(d)));
        assert(all_digits(s));
        assert(digit_val(digit_char(d)) == d);
        assert(dec_val(s) == dec_val(t) * 10 + d);
        vstd::arithmetic::div_mod::lemma_fundamental_div_mod(n as int, 10);
    }
}

/// A numeral stands as a value line: digits are plain characters.
pub proof fn lemma_numeral_value_ok(n: nat)
    ensures
        value_ok(dec_chars(n)),
        nl_free(dec_chars(n)),
{
    lemma_dec_chars_val(n);
    let s = dec_chars(n);
    assert forall|i: int| 0 <= i < s.len() implies s[i] != '\n' by {
        lemma_digit_plain(s[i]);
    }
    lemma_digit_plain(s[0]);
    lemma_digit_plain(s[s.len() - 1]);
}

/// What parsing gives back on a canonical numeral.
pub proof fn lemma_parse_dec_chars(n: u32)
    ensures
        parse_u32_spec(dec_chars(n as nat)) == Some(n),
{
    lemma_dec_chars_val(n as nat);
}

/// Writes the canonical numeral of a number.
pub fn u32_to_chars(n: u32) -> (r: Vec<char>)
    ensures
        r@ == dec_chars(n as nat),
    decreases n,
{
    if n < 10 {
        let c: char = match n {
            0 => '0',
            1 => '1',
            2 => '2',
            3 => '3',
            4 => '4',
            5 => '5',
            6 => '6',
            7 => '7',
            8 => '8',
            _ => '9',
        };
        let mut v: Vec<char> = Vec::new();
        v.push(c);
        assert(v@ =~= dec_chars(n as nat));
        v
    } else {
        let mut v = u32_to_chars(n / 10);
        let d: u32 = n % 10;
        let c: char = match d {
            0 => '0',
            1 => '1',
            2 => '2',
            3 => '3',
            4 => '4',
            5 => '5',
            6 => '6',
            7 => '7',
            8 => '8',
            _ => '9',
        };
        v.push(c);
        assert(v@ =~= dec_chars(n as nat));
        v
    }
}

} // verus!
