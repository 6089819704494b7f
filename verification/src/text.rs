//! Character-level helpers shared by the text-processing modules.
use vstd::prelude::*;

verus! {

broadcast use vstd::string::group_string_axioms;

/// `String::push` appends one character at the end of the string (std documentation:
/// "Appends the given char to the end of this String").
pub assume_specification[ String::push ](s: &mut String, ch: char)
    ensures
        final(s)@ == old(s)@.push(ch),
;

/// The characters of `s`, in order.
pub fn chars_of(s: &str) -> (v: Vec<char>)
    ensures
        v@ == s@,
{
    let mut v: Vec<char> = Vec::new();
    for c in it: s.chars()
        invariant
            v.len() == it.index(),
            forall|i: int| 0 <= i < v.len() ==> v@[i] == it.seq()[i],
    {
        v.push(c);
    }
    assert(v@ =~= s@);
    v
}


/// The views of a sequence of strings.
pub open spec fn views(v: Seq<String>) -> Seq<Seq<char>> {
    Seq::new(v.len(), |i: int| v[i]@)
}

/// `line` without one trailing carriage return.
pub open spec fn strip_cr(line: Seq<char>) -> Seq<char> {
    if line.len() > 0 && line.last() == '\r' {
        line.drop_last()
    } else {
        line
    }
}

/// Reading `s` from the left: the lines already ended by a '\n', and the
/// characters after the last '\n'.
pub open spec fn scan_lines(s: Seq<char>) -> (Seq<Seq<char>>, Seq<char>)
    decreases s.len(),
{
    if s.len() == 0 {
        (Seq::empty(), Seq::empty())
    } else {
        let (done, tail) = scan_lines(s.drop_last());
        if s.last() == '\n' {
            (done.push(strip_cr(tail)), Seq::empty())
        } else {
            (done, tail.push(s.last()))
        }
    }
}

/// The lines of `s` as `str::lines` yields them: split at each '\n', with a '\r'
/// right before the '\n' removed, and no empty line after a final '\n'.
pub open spec fn text_lines(s: Seq<char>) -> Seq<Seq<char>> {
    let (done, tail) = scan_lines(s);
    if tail.len() == 0 {
        done
    } else {
        done.push(tail)
    }
}

/// `parts` joined with a '\n' between consecutive parts.
pub open spec fn join_lines(parts: Seq<Seq<char>>) -> Seq<char>
    decreases parts.len(),
{
    if parts.len() == 0 {
        Seq::empty()
    } else if parts.len() == 1 {
        parts[0]
    } else {
        join_lines(parts.drop_last()) + seq!['\n'] + parts.last()
    }
}

/// Joining two non-empty lists of lines one after the other puts a '\n'
/// between the two joins.
pub proof fn lemma_join_lines_concat(a: Seq<Seq<char>>, b: Seq<Seq<char>>)
    requires
        a.len() > 0,
        b.len() > 0,
    ensures
        join_lines(a + b) == join_lines(a) + seq!['\n'] + join_lines(b),
    decreases b.len(),
{
    if b.len() == 1 {
        assert((a + b).drop_last() =~= a);
    } else {
        assert((a + b).drop_last() =~= a + b.drop_last());
        lemma_join_lines_concat(a, b.drop_last());
        assert(join_lines(a + b) =~= join_lines(a) + seq!['\n'] + join_lines(b));
    }
}

/// No line that `scan_lines` produces holds a '\n'.
proof fn lemma_scan_lines_no_newline(s: Seq<char>)
    ensures
        forall|i: int| 0 <= i < scan_lines(s).0.len() ==> !#[trigger] scan_lines(s).0[i].contains('\n'),
        !scan_lines(s).1.contains('\n'),
    decreases s.len(),
{
    if s.len() > 0 {
        lemma_scan_lines_no_newline(s.drop_last());
        let (done, tail) = scan_lines(s.drop_last());
        if s.last() == '\n' {
            assert(!strip_cr(tail).contains('\n')) by {
                if strip_cr(tail).contains('\n') {
                    let k = choose|k: int| 0 <= k < strip_cr(tail).len() && strip_cr(tail)[k] == '\n';
                    assert(tail[k] == '\n');
                }
            }
            assert(forall|i: int| 0 <= i < done.len() ==> done.push(strip_cr(tail))[i] == done[i]);
        } else {
            assert(!tail.push(s.last()).contains('\n')) by {
                if tail.push(s.last()).contains('\n') {
                    let k = choose|k: int| 0 <= k < tail.push(s.last()).len() && tail.push(s.last())[k] == '\n';
                    if k < tail.len() {
                        assert(tail[k] == '\n');
                    }
                }
            }
        }
    }
}

/// No line of a text holds a '\n'.
pub proof fn lemma_text_lines_no_newline(s: Seq<char>)
    ensures
        forall|i: int| 0 <= i < text_lines(s).len() ==> !#[trigger] text_lines(s)[i].contains('\n'),
{
    lemma_scan_lines_no_newline(s);
    let (done, tail) = scan_lines(s);
    if tail.len() > 0 {
        assert(forall|i: int| 0 <= i < done.len() ==> done.push(tail)[i] == done[i]);
    }
}

/// The character of the decimal digit `d`.
pub open spec fn digit_char(d: nat) -> char {
    (('0' as nat) + d) as char
}

/// The decimal numeral of `n`, without leading zeros.
pub open spec fn decimal(n: nat) -> Seq<char>
    decreases n,
{
    if n < 10 {
        seq![digit_char(n)]
    } else {
        decimal(n / 10).push(digit_char(n % 10))
    }
}

/// Appends the decimal numeral of `n` to `s`.
pub fn push_decimal(s: &mut String, n: u64)
    ensures
        final(s)@ == old(s)@ + decimal(n as nat),
    decreases n,
{
    if n >= 10 {
        push_decimal(s, n / 10);
    }
    let d: u8 = (n % 10) as u8;
    let c: char = (48u8 + d) as char;
    assert(c == digit_char((n % 10) as nat));
    s.push(c);
    assert(s@ =~= old(s)@ + decimal(n as nat));
}

/// A numeral is never empty and ends with the last digit of its number.
pub proof fn lemma_decimal_shape(n: nat)
    ensures
        decimal(n).len() >= 1,
        decimal(n).last() == digit_char(n % 10),
        n >= 10 ==> decimal(n).len() >= 2 && decimal(n).drop_last() == decimal(n / 10),
        n < 10 ==> decimal(n).len() == 1,
    decreases n,
{
    if n >= 10 {
        lemma_decimal_shape(n / 10);
        assert(decimal(n).drop_last() =~= decimal(n / 10));
    }
}

/// Distinct numbers have distinct numerals.
pub proof fn lemma_decimal_injective(a: nat, b: nat)
    requires
        decimal(a) == decimal(b),
    ensures
        a == b,
    decreases a,
{
    lemma_decimal_shape(a);
    lemma_decimal_shape(b);
    assert(a % 10 == b % 10) by {
        assert(digit_char(a % 10) == digit_char(b % 10));
    }
    if a >= 10 && b >= 10 {
        lemma_decimal_injective(a / 10, b / 10);
    }
}

/// Whether `s` begins with `prefix`.
pub open spec fn has_prefix(s: Seq<char>, prefix: Seq<char>) -> bool {
    prefix.len() <= s.len() && s.take(prefix.len() as int) == prefix
}

/// Whether `s` begins with `prefix`.
pub fn starts_with(s: &Vec<char>, prefix: &Vec<char>) -> (b: bool)
    ensures
        b == has_prefix(s@, prefix@),
{
    if prefix.len() > s.len() {
        return false;
    }
    let mut i: usize = 0;
    while i < prefix.len()
        invariant
            i <= prefix.len() <= s.len(),
            forall|j: int| 0 <= j < i ==> s@[j] == prefix@[j],
        decreases prefix.len() - i,
    {
        if s[i] != prefix[i] {
            assert(s@.take(prefix.len() as int)[i as int] != prefix@[i as int]);
            return false;
        }
        i = i + 1;
    }
    assert(s@.take(prefix.len() as int) =~= prefix@);
    true
}

/// Lexicographic order on character sequences (the order of `String`'s `Ord`):
/// `a` comes before `b` when, after a common prefix of length `k`, `a` ends
/// while `b` goes on, or `a`'s next character is the smaller one.
pub open spec fn lex_before_at(a: Seq<char>, b: Seq<char>, k: int) -> bool {
    &&& 0 <= k <= a.len()
    &&& k <= b.len()
    &&& forall|j: int| 0 <= j < k ==> a[j] == b[j]
    &&& (k == a.len() && k < b.len()) || (k < a.len() && k < b.len() && a[k] < b[k])
}

/// Whether `a` sorts strictly before `b`.
pub open spec fn lex_before(a: Seq<char>, b: Seq<char>) -> bool {
    exists|k: int| lex_before_at(a, b, k)
}

/// The lexicographic order is transitive.
pub proof fn lemma_lex_before_transitive(a: Seq<char>, b: Seq<char>, c: Seq<char>)
    requires
        lex_before(a, b),
        lex_before(b, c),
    ensures
        lex_before(a, c),
{
    let k1 = choose|k: int| lex_before_at(a, b, k);
    let k2 = choose|k: int| lex_before_at(b, c, k);
    if k1 < k2 {
        assert(lex_before_at(a, c, k1));
    } else if k2 < k1 {
        assert(lex_before_at(a, c, k2));
    } else {
        assert(lex_before_at(a, c, k1));
    }
}

/// Nothing sorts strictly before itself.
pub proof fn lemma_lex_before_irreflexive(a: Seq<char>)
    ensures
        !lex_before(a, a),
{
}

/// Whether `a` sorts strictly before `b`.
pub fn lex_less(a: &Vec<char>, b: &Vec<char>) -> (lt: bool)
    ensures
        lt == lex_before(a@, b@),
{
    let mut k: usize = 0;
    while k < a.len() && k < b.len()
        invariant
            k <= a.len(),
            k <= b.len(),
            forall|j: int| 0 <= j < k ==> a@[j] == b@[j],
        decreases a.len() - k,
    {
        if a[k] != b[k] {
            let lt = a[k] < b[k];
            proof {
                if lt {
                    assert(lex_before_at(a@, b@, k as int));
                } else {
                    assert forall|m: int| !lex_before_at(a@, b@, m) by {
                        if lex_before_at(a@, b@, m) {
                            if m < k {
                            } else if m > k {
                                assert(a@[k as int] == b@[k as int]);
                            }
                        }
                    }
                }
            }
            return lt;
        }
        k = k + 1;
    }
    let lt = k == a.len() && k < b.len();
    proof {
        if lt {
            assert(lex_before_at(a@, b@, k as int));
        } else {
            assert forall|m: int| !lex_before_at(a@, b@, m) by {
                if lex_before_at(a@, b@, m) {
                    if m < k {
                    } else if m > k {
                    }
                }
            }
        }
    }
    lt
}

/// Whether `c` has the Unicode White_Space property, as `char::is_whitespace`
/// defines it.
pub open spec fn is_white_space(c: char) -> bool {
    let u = c as u32;
    ||| 0x09 <= u <= 0x0d
    ||| u == 0x20
    ||| u == 0x85
    ||| u == 0xa0
    ||| u == 0x1680
    ||| 0x2000 <= u <= 0x200a
    ||| u == 0x2028
    ||| u == 0x2029
    ||| u == 0x202f
    ||| u == 0x205f
    ||| u == 0x3000
}

/// `s` without its leading white space.
pub open spec fn trim_start_spec(s: Seq<char>) -> Seq<char>
    decreases s.len(),
{
    if s.len() > 0 && is_white_space(s[0]) {
        trim_start_spec(s.drop_first())
    } else {
        s
    }
}

/// `s` without its trailing white space.
pub open spec fn trim_end_spec(s: Seq<char>) -> Seq<char>
    decreases s.len(),
{
    if s.len() > 0 && is_white_space(s.last()) {
        trim_end_spec(s.drop_last())
    } else {
        s
    }
}

/// `s` without leading and trailing white space.
pub open spec fn trimmed(s: Seq<char>) -> Seq<char> {
    trim_end_spec(trim_start_spec(s))
}

/// Calls `str::trim`: std documents it as returning "a string slice with
/// leading and trailing whitespace removed", whitespace being what the
/// Unicode Derived Core Property White_Space lists; see [`trimmed`].
#[verifier::external_body]
pub(crate) fn trim_text(s: &str) -> (out: String)
    ensures
        out@ == trimmed(s@),
{
    s.trim().to_string()
}

/// A copy of `chars[from..to]` as a string.
pub fn string_of(chars: &Vec<char>, from: usize, to: usize) -> (s: String)
    requires
        from <= to <= chars.len(),
    ensures
        s@ == chars@.subrange(from as int, to as int),
{
    let mut s = String::new();
    let mut i = from;
    while i < to
        invariant
            from <= i <= to <= chars.len(),
            s@ == chars@.subrange(from as int, i as int),
        decreases to - i,
    {
        s.push(chars[i]);
        i = i + 1;
        assert(s@ =~= chars@.subrange(from as int, i as int));
    }
    s
}

/// Splits `text` into its lines, as `str::lines` does.
pub fn lines_of(text: &str) -> (lines: Vec<String>)
    ensures
        views(lines@) == text_lines(text@),
{
    let chars = chars_of(text);
    let mut lines: Vec<String> = Vec::new();
    let mut start: usize = 0;
    let mut i: usize = 0;
    while i < chars.len()
        invariant
            chars@ == text@,
            start <= i <= chars.len(),
            views(lines@) == scan_lines(chars@.take(i as int)).0,
            chars@.subrange(start as int, i as int) == scan_lines(chars@.take(i as int)).1,
        decreases chars.len() - i,
    {
        assert(chars@.take(i + 1).drop_last() =~= chars@.take(i as int));
        if chars[i] == '\n' {
            let mut end = i;
            if end > start && chars[end - 1] == '\r' {
                end = end - 1;
            }
            let line = string_of(&chars, start, end);
            proof {
                let tail = chars@.subrange(start as int, i as int);
                assert(strip_cr(tail) =~= chars@.subrange(start as int, end as int));
            }
            lines.push(line);
            assert(views(lines@) =~= scan_lines(chars@.take(i + 1)).0);
            start = i + 1;
        } else {
            assert(chars@.subrange(start as int, i + 1) =~= chars@.subrange(start as int, i as int).push(chars@[i as int]));
        }
        i = i + 1;
        assert(chars@.subrange(start as int, i as int) =~= scan_lines(chars@.take(i as int)).1);
    }
    assert(chars@.take(chars.len() as int) =~= chars@);
    if start < chars.len() {
        let last = string_of(&chars, start, chars.len());
        lines.push(last);
        assert(views(lines@) =~= text_lines(text@));
    }
    lines
}

} // verus!
