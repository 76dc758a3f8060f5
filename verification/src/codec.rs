//! The on-disk line format for tasks.
//!
//! One task is one newline-terminated line `<position>,<completed>,<content>`:
//! a base-10 numeral, the literal `true` or `false`, and the content verbatim
//! (it may contain further commas; only the first two commas split fields).
//! The numeral is validated on decode and then discarded: a task's place comes
//! from its line's position in the file, never from the stored number.

use crate::errors::StoreError;
use crate::store::{Task, TaskView};
use vstd::arithmetic::div_mod::lemma_fundamental_div_mod;
use vstd::prelude::*;

verus! {

/// The character that separates the fields of a line.
pub open spec fn delimiter() -> char {
    ','
}

pub open spec fn is_digit(c: char) -> bool {
    ||| c == '0'
    ||| c == '1'
    ||| c == '2'
    ||| c == '3'
    ||| c == '4'
    ||| c == '5'
    ||| c == '6'
    ||| c == '7'
    ||| c == '8'
    ||| c == '9'
}

pub open spec fn digit_val(c: char) -> nat {
    if c == '0' {
        0
    } else if c == '1' {
        1
    } else if c == '2' {
        2
    } else if c == '3' {
        3
    } else if c == '4' {
        4
    } else if c == '5' {
        5
    } else if c == '6' {
        6
    } else if c == '7' {
        7
    } else if c == '8' {
        8
    } else {
        9
    }
}

pub open spec fn digit_char(d: nat) -> char {
    if d == 0 {
        '0'
    } else if d == 1 {
        '1'
    } else if d == 2 {
        '2'
    } else if d == 3 {
        '3'
    } else if d == 4 {
        '4'
    } else if d == 5 {
        '5'
    } else if d == 6 {
        '6'
    } else if d == 7 {
        '7'
    } else if d == 8 {
        '8'
    } else {
        '9'
    }
}

/// The decimal numeral for `n`, most significant digit first, no sign and
/// no leading zeros (except for `n == 0` itself).
pub open spec fn dec_rep(n: nat) -> Seq<char>
    decreases n,
{
    if n < 10 {
        seq![digit_char(n)]
    } else {
        dec_rep(n / 10).push(digit_char(n % 10))
    }
}

/// The value of a digit string, most significant digit first.
pub open spec fn digits_val(s: Seq<char>) -> nat
    decreases s.len(),
{
    if s.len() == 0 {
        0
    } else {
        digits_val(s.drop_last()) * 10 + digit_val(s.last())
    }
}

/// A non-empty, all-digit string whose value fits in `usize`: exactly the
/// position fields that decoding accepts.
pub open spec fn is_usize_numeral(s: Seq<char>) -> bool {
    &&& s.len() > 0
    &&& (forall|k: int| 0 <= k < s.len() ==> is_digit(#[trigger] s[k]))
    &&& digits_val(s) <= usize::MAX
}

/// The numeral for any value is non-empty, made of digits, and reads back
/// as that value.
pub proof fn lemma_dec_rep(n: nat)
    ensures
        dec_rep(n).len() >= 1,
        forall|k: int| 0 <= k < dec_rep(n).len() ==> is_digit(#[trigger] dec_rep(n)[k]),
        digits_val(dec_rep(n)) == n,
    decreases n,
{
    if n < 10 {
        let s = dec_rep(n);
        assert(s =~= seq![digit_char(n)]);
        assert(s.drop_last() =~= Seq::<char>::empty());
        assert(digits_val(Seq::<char>::empty()) == 0);
        assert(s.last() == digit_char(n));
        assert(digits_val(s) == digit_val(digit_char(n)));
    } else {
        lemma_dec_rep(n / 10);
        let s = dec_rep(n / 10);
        let d = digit_char(n % 10);
        assert(dec_rep(n) == s.push(d));
        assert(s.push(d).drop_last() =~= s);
        assert(s.push(d).last() == d);
        assert(digits_val(dec_rep(n)) == (n / 10) * 10 + digit_val(d));
        assert(digit_val(d) == n % 10);
        lemma_fundamental_div_mod(n as int, 10);
        assert(forall|k: int| 0 <= k < dec_rep(n).len() ==> is_digit(#[trigger] dec_rep(n)[k]))
            by {
            assert(forall|k: int| 0 <= k < s.len() ==> is_digit(#[trigger] s.push(d)[k]));
            assert(s.push(d)[s.len() as int] == d);
        }
    }
}

/// A longer digit string never has a smaller value than a prefix of it.
pub proof fn lemma_digits_val_prefix(s: Seq<char>, k: int)
    requires
        0 <= k <= s.len(),
    ensures
        digits_val(s.take(k)) <= digits_val(s),
    decreases s.len() - k,
{
    if k == s.len() {
        assert(s.take(k) =~= s);
    } else {
        lemma_digits_val_prefix(s.drop_last(), k);
        assert(s.take(k) =~= s.drop_last().take(k));
        assert(digits_val(s) == digits_val(s.drop_last()) * 10 + digit_val(s.last()));
    }
}

/// The index of the first occurrence of `c` in `s`, if any.
pub open spec fn find_char(s: Seq<char>, c: char) -> Option<int>
    decreases s.len(),
{
    if s.len() == 0 {
        None
    } else if s[0] == c {
        Some(0int)
    } else {
        match find_char(s.drop_first(), c) {
            None => None,
            Some(i) => Some(i + 1),
        }
    }
}

/// `find_char` returns the least index holding `c`, or reports that none does.
pub proof fn lemma_find_char(s: Seq<char>, c: char)
    ensures
        match find_char(s, c) {
            Some(i) => 0 <= i < s.len() && s[i] == c && (forall|j: int|
                0 <= j < i ==> s[j] != c),
            None => forall|j: int| 0 <= j < s.len() ==> s[j] != c,
        },
    decreases s.len(),
{
    if s.len() == 0 {
    } else if s[0] == c {
    } else {
        lemma_find_char(s.drop_first(), c);
        match find_char(s.drop_first(), c) {
            None => {
                assert forall|j: int| 0 <= j < s.len() implies s[j] != c by {
                    if j >= 1 {
                        assert(s.drop_first()[j - 1] == s[j]);
                    }
                }
            },
            Some(i) => {
                assert(s.drop_first()[i] == s[i + 1]);
                assert forall|j: int| 0 <= j < i + 1 implies s[j] != c by {
                    if j >= 1 {
                        assert(s.drop_first()[j - 1] == s[j]);
                    }
                }
            },
        }
    }
}

/// If `c` stands at `k` and nowhere earlier, `find_char` finds exactly `k`.
pub proof fn lemma_find_char_at(s: Seq<char>, c: char, k: int)
    requires
        0 <= k < s.len(),
        s[k] == c,
        forall|j: int| 0 <= j < k ==> s[j] != c,
    ensures
        find_char(s, c) == Some(k),
{
    lemma_find_char(s, c);
    match find_char(s, c) {
        None => {
            assert(s[k] != c);
        },
        Some(i) => {
            if i < k {
                assert(s[i] != c);
            }
            if i > k {
                assert(s[k] != c);
            }
        },
    }
}

/// If no position holds `c`, `find_char` finds nothing.
pub proof fn lemma_find_char_none(s: Seq<char>, c: char)
    requires
        forall|j: int| 0 <= j < s.len() ==> s[j] != c,
    ensures
        find_char(s, c) is None,
{
    lemma_find_char(s, c);
    if let Some(i) = find_char(s, c) {
        assert(s[i] != c);
    }
}

/// The on-disk text of a completion flag.
pub open spec fn bool_lit(b: bool) -> Seq<char> {
    if b {
        seq!['t', 'r', 'u', 'e']
    } else {
        seq!['f', 'a', 'l', 's', 'e']
    }
}

fn str_eq(a: &str, b: &str) -> (r: bool)
    ensures
        r == (a@ == b@),
{
    let n = a.unicode_len();
    let m = b.unicode_len();
    if n != m {
        return false;
    }
    let mut k: usize = 0;
    while k < n
        invariant
            n == a@.len(),
            n == b@.len(),
            0 <= k <= n,
            forall|j: int| 0 <= j < k ==> a@[j] == b@[j],
        decreases n - k,
    {
        if a.get_char(k) != b.get_char(k) {
            return false;
        }
        k += 1;
    }
    proof {
        assert(a@ =~= b@);
    }
    true
}

pub(crate) fn find_char_in(s: &str, c: char) -> (r: Option<usize>)
    ensures
        match r {
            Some(k) => find_char(s@, c) == Some(k as int),
            None => find_char(s@, c) is None,
        },
{
    let n = s.unicode_len();
    let mut k: usize = 0;
    while k < n
        invariant
            n == s@.len(),
            0 <= k <= n,
            forall|j: int| 0 <= j < k ==> s@[j] != c,
        decreases n - k,
    {
        if s.get_char(k) == c {
            proof {
                lemma_find_char_at(s@, c, k as int);
            }
            return Some(k);
        }
        k += 1;
    }
    proof {
        lemma_find_char_none(s@, c);
    }
    None
}

fn digit_of_char(c: char) -> (r: Option<usize>)
    ensures
        match r {
            Some(d) => is_digit(c) && d < 10 && d as nat == digit_val(c),
            None => !is_digit(c),
        },
{
    if c == '0' {
        Some(0)
    } else if c == '1' {
        Some(1)
    } else if c == '2' {
        Some(2)
    } else if c == '3' {
        Some(3)
    } else if c == '4' {
        Some(4)
    } else if c == '5' {
        Some(5)
    } else if c == '6' {
        Some(6)
    } else if c == '7' {
        Some(7)
    } else if c == '8' {
        Some(8)
    } else if c == '9' {
        Some(9)
    } else {
        None
    }
}

fn parse_usize_str(s: &str) -> (r: Option<usize>)
    ensures
        match r {
            Some(v) => is_usize_numeral(s@) && v as nat == digits_val(s@),
            None => !is_usize_numeral(s@),
        },
{
    let n = s.unicode_len();
    if n == 0 {
        return None;
    }
    let mut val: usize = 0;
    let mut k: usize = 0;
    while k < n
        invariant
            n == s@.len(),
            0 < n <= usize::MAX,
            0 <= k <= n,
            forall|j: int| 0 <= j < k ==> is_digit(#[trigger] s@[j]),
            val as nat == digits_val(s@.take(k as int)),
        decreases n - k,
    {
        let c = s.get_char(k);
        let d = match digit_of_char(c) {
            Some(d) => d,
            None => {
                return None;
            },
        };
        proof {
            assert(s@.take(k as int + 1).drop_last() =~= s@.take(k as int));
            assert(s@.take(k as int + 1).last() == s@[k as int]);
            assert(digits_val(s@.take(k as int + 1)) == (val as nat) * 10 + (d as nat));
            lemma_fundamental_div_mod((usize::MAX - d) as int, 10);
        }
        if val > (usize::MAX - d) / 10 {
            proof {
                assert((val as nat) * 10 + (d as nat) > usize::MAX);
                lemma_digits_val_prefix(s@, k as int + 1);
            }
            return None;
        }
        val = val * 10 + d;
        k += 1;
    }
    proof {
        assert(s@.take(n as int) =~= s@);
    }
    Some(val)
}

fn parse_bool_str(s: &str) -> (r: Option<bool>)
    ensures
        match r {
            Some(b) => s@ == bool_lit(b),
            None => s@ != bool_lit(true) && s@ != bool_lit(false),
        },
{
    proof {
        reveal_strlit("true");
        reveal_strlit("false");
        assert("true"@ =~= bool_lit(true));
        assert("false"@ =~= bool_lit(false));
    }
    if str_eq(s, "true") {
        Some(true)
    } else if str_eq(s, "false") {
        Some(false)
    } else {
        None
    }
}

/// The line that a task at position `pos` is written as, without the
/// terminating newline: the position numeral, the completion flag and the
/// content verbatim, separated by the delimiter.
pub open spec fn encode_line(pos: nat, rec: TaskView) -> Seq<char> {
    dec_rep(pos) + seq![delimiter()] + bool_lit(rec.completed) + seq![delimiter()] + rec.content
}

/// What one line decodes to: the position value, the completion flag and the
/// content. The line splits at its first two delimiters only, so the content
/// keeps any further delimiters. A line with fewer than three fields, a
/// position field that is not a numeral fitting `usize`, or a flag field that
/// is not a boolean literal decodes to nothing.
pub open spec fn decode_line(line: Seq<char>) -> Option<(nat, bool, Seq<char>)> {
    match find_char(line, delimiter()) {
        None => None,
        Some(i) => {
            let numeral = line.take(i);
            let rest = line.skip(i + 1);
            match find_char(rest, delimiter()) {
                None => None,
                Some(j) => {
                    let flag = rest.take(j);
                    let content = rest.skip(j + 1);
                    if is_usize_numeral(numeral) && (flag == bool_lit(true) || flag == bool_lit(
                        false,
                    )) {
                        Some((digits_val(numeral), flag == bool_lit(true), content))
                    } else {
                        None
                    }
                },
            }
        },
    }
}

/// Splits one line into its three fields. The position value is validated
/// and returned, but a caller placing the task must go by line order, not by
/// this value.
pub fn parse_task(line: String) -> (r: Result<(usize, bool, String), StoreError>)
    ensures
        ({
            let d = decode_line(line@);
            match r {
                Ok(parts) => {
                    &&& d is Some
                    &&& parts.0 as nat == d->Some_0.0
                    &&& parts.1 == d->Some_0.1
                    &&& parts.2@ == d->Some_0.2
                },
                Err(e) => d is None && e == StoreError::Parse,
            }
        }),
{
    let s = line.as_str();
    let n = s.unicode_len();
    let i = match find_char_in(s, ',') {
        Some(i) => i,
        None => {
            return Err(StoreError::Parse);
        },
    };
    proof {
        lemma_find_char(s@, ',');
    }
    let numeral_str = s.substring_char(0, i);
    let rest_str = s.substring_char(i + 1, n);
    proof {
        assert(numeral_str@ =~= s@.take(i as int));
        assert(rest_str@ =~= s@.skip(i as int + 1));
    }
    let m = rest_str.unicode_len();
    let j = match find_char_in(rest_str, ',') {
        Some(j) => j,
        None => {
            return Err(StoreError::Parse);
        },
    };
    proof {
        lemma_find_char(rest_str@, ',');
    }
    let flag_str = rest_str.substring_char(0, j);
    let content_str = rest_str.substring_char(j + 1, m);
    proof {
        assert(flag_str@ =~= rest_str@.take(j as int));
        assert(content_str@ =~= rest_str@.skip(j as int + 1));
    }
    let num = match parse_usize_str(numeral_str) {
        Some(v) => v,
        None => {
            return Err(StoreError::Parse);
        },
    };
    let flag = match parse_bool_str(flag_str) {
        Some(b) => b,
        None => {
            return Err(StoreError::Parse);
        },
    };
    Ok((num, flag, content_str.to_owned()))
}

/// Writes the line for `task` at position `position`, without the newline.
/// The position is informational only: decoding validates and discards it.
pub fn encode_task(position: usize, task: &Task) -> (r: String)
    ensures
        r@ == encode_line(position as nat, task@),
{
    let mut s = usize_to_string(position);
    s.append(",");
    let flag = if task.completed {
        "true"
    } else {
        "false"
    };
    s.append(flag);
    s.append(",");
    s.append(task.content.as_str());
    proof {
        reveal_strlit(",");
        reveal_strlit("true");
        reveal_strlit("false");
        assert(","@ =~= seq![delimiter()]);
        assert("true"@ =~= bool_lit(true));
        assert("false"@ =~= bool_lit(false));
    }
    s
}

/// Decoding inverts encoding for any one task at any representable position.
/// The content may itself contain the delimiter: only the first two
/// delimiters split the line.
pub proof fn lemma_line_round_trip(pos: nat, rec: TaskView)
    requires
        pos <= usize::MAX,
    ensures
        decode_line(encode_line(pos, rec)) == Some((pos, rec.completed, rec.content)),
{
    let line = encode_line(pos, rec);
    let a = dec_rep(pos);
    let lit = bool_lit(rec.completed);
    lemma_dec_rep(pos);
    let nd = a.len() as int;
    assert(line.len() == a.len() + 1 + lit.len() + 1 + rec.content.len());
    assert(forall|j: int| 0 <= j < nd ==> line[j] == a[j]);
    assert(line[nd] == delimiter());
    assert forall|j: int| 0 <= j < nd implies line[j] != delimiter() by {
        assert(is_digit(a[j]));
    }
    lemma_find_char_at(line, delimiter(), nd);
    assert(line.take(nd) =~= a);
    let rest = line.skip(nd + 1);
    assert(rest =~= lit + seq![delimiter()] + rec.content);
    let nl = lit.len() as int;
    assert(forall|j: int| 0 <= j < nl ==> rest[j] == lit[j]);
    assert(rest[nl] == delimiter());
    assert forall|j: int| 0 <= j < nl implies rest[j] != delimiter() by {
        if rec.completed {
            assert(lit =~= seq!['t', 'r', 'u', 'e']);
        } else {
            assert(lit =~= seq!['f', 'a', 'l', 's', 'e']);
        }
    }
    lemma_find_char_at(rest, delimiter(), nl);
    assert(rest.take(nl) =~= lit);
    assert(rest.skip(nl + 1) =~= rec.content);
    assert(is_usize_numeral(a));
    assert(bool_lit(true).len() == 4 && bool_lit(false).len() == 5);
    assert((lit == bool_lit(true)) == rec.completed);
}

/// Content that the line format can carry: free of the line terminator.
/// (Content may contain anything else, the delimiter included.)
pub open spec fn line_safe(rec: TaskView) -> bool {
    forall|k: int| 0 <= k < rec.content.len() ==> rec.content[k] != '\n'
}

/// The lines of `tasks` numbered from `pos` on, each newline-terminated.
pub open spec fn encode_lines_from(tasks: Seq<TaskView>, pos: nat) -> Seq<char>
    decreases tasks.len(),
{
    if tasks.len() == 0 {
        Seq::empty()
    } else {
        encode_line(pos, tasks[0]) + seq!['\n'] + encode_lines_from(tasks.drop_first(), pos + 1)
    }
}

/// The whole file for a store's tasks: one line per task, in store order,
/// numbered from zero.
pub open spec fn encode_lines(tasks: Seq<TaskView>) -> Seq<char> {
    encode_lines_from(tasks, 0)
}

/// The text up to (not including) the first newline, or all of it if there
/// is none.
pub open spec fn first_line(text: Seq<char>) -> Seq<char> {
    match find_char(text, '\n') {
        Some(i) => text.take(i),
        None => text,
    }
}

/// The text after the first newline; empty if there is none.
pub open spec fn rest_lines(text: Seq<char>) -> Seq<char> {
    match find_char(text, '\n') {
        Some(i) => text.skip(i + 1),
        None => Seq::empty(),
    }
}

/// What a whole file decodes to: the tasks of its lines in file order, or
/// nothing as soon as any line is malformed — a partial decode is never
/// returned. The final line may or may not carry a terminating newline; an
/// empty file holds no tasks.
pub open spec fn decode_lines(text: Seq<char>) -> Option<Seq<TaskView>>
    decreases text.len(),
    via decode_lines_dec
{
    if text.len() == 0 {
        Some(Seq::empty())
    } else {
        match decode_line(first_line(text)) {
            None => None,
            Some(t) => match decode_lines(rest_lines(text)) {
                None => None,
                Some(ts) => Some(seq![TaskView { content: t.2, completed: t.1 }] + ts),
            },
        }
    }
}

#[via_fn]
proof fn decode_lines_dec(text: Seq<char>) {
    if text.len() != 0 {
        lemma_find_char(text, '\n');
    }
}

/// The encoded line of a task with line-safe content is itself free of
/// newlines.
pub proof fn lemma_encode_line_no_newline(pos: nat, rec: TaskView)
    requires
        line_safe(rec),
    ensures
        forall|k: int|
            0 <= k < encode_line(pos, rec).len() ==> encode_line(pos, rec)[k] != '\n',
{
    let line = encode_line(pos, rec);
    let a = dec_rep(pos);
    let lit = bool_lit(rec.completed);
    lemma_dec_rep(pos);
    assert forall|k: int| 0 <= k < line.len() implies line[k] != '\n' by {
        let na = a.len() as int;
        let nl = lit.len() as int;
        if k < na {
            assert(line[k] == a[k]);
            assert(is_digit(a[k]));
        } else if k == na {
            assert(line[k] == delimiter());
        } else if k < na + 1 + nl {
            assert(line[k] == lit[k - na - 1]);
            if rec.completed {
                assert(lit =~= seq!['t', 'r', 'u', 'e']);
            } else {
                assert(lit =~= seq!['f', 'a', 'l', 's', 'e']);
            }
        } else if k == na + 1 + nl {
            assert(line[k] == delimiter());
        } else {
            assert(line[k] == rec.content[k - na - 2 - nl]);
        }
    }
}

proof fn lemma_lines_round_trip(tasks: Seq<TaskView>, pos: nat)
    requires
        pos + tasks.len() <= usize::MAX,
        forall|i: int| 0 <= i < tasks.len() ==> line_safe(#[trigger] tasks[i]),
    ensures
        decode_lines(encode_lines_from(tasks, pos)) == Some(tasks),
    decreases tasks.len(),
{
    if tasks.len() == 0 {
        assert(encode_lines_from(tasks, pos) =~= Seq::<char>::empty());
        assert(tasks =~= Seq::<TaskView>::empty());
    } else {
        let t0 = tasks[0];
        let line0 = encode_line(pos, t0);
        let rest_enc = encode_lines_from(tasks.drop_first(), pos + 1);
        let text = encode_lines_from(tasks, pos);
        assert(text == line0 + seq!['\n'] + rest_enc);
        lemma_encode_line_no_newline(pos, t0);
        assert(text[line0.len() as int] == '\n');
        assert forall|j: int| 0 <= j < line0.len() implies text[j] != '\n' by {
            assert(text[j] == line0[j]);
        }
        lemma_find_char_at(text, '\n', line0.len() as int);
        assert(first_line(text) =~= line0);
        assert(rest_lines(text) =~= rest_enc);
        lemma_line_round_trip(pos, t0);
        assert forall|i: int| 0 <= i < tasks.drop_first().len() implies line_safe(
            #[trigger] tasks.drop_first()[i],
        ) by {
            assert(tasks.drop_first()[i] == tasks[i + 1]);
        }
        lemma_lines_round_trip(tasks.drop_first(), pos + 1);
        assert(TaskView { content: t0.content, completed: t0.completed } == t0);
        assert(seq![t0] + tasks.drop_first() =~= tasks);
    }
}

/// A store written out and read back yields the same sequence of tasks —
/// order, content and completion flags alike — for any tasks whose content
/// is free of the line terminator.
pub proof fn lemma_store_round_trip(tasks: Seq<TaskView>)
    requires
        tasks.len() <= usize::MAX,
        forall|i: int| 0 <= i < tasks.len() ==> line_safe(#[trigger] tasks[i]),
    ensures
        decode_lines(encode_lines(tasks)) == Some(tasks),
{
    lemma_lines_round_trip(tasks, 0);
}

fn digit_str(d: usize) -> (r: &'static str)
    requires
        d < 10,
    ensures
        r@ =~= seq![digit_char(d as nat)],
{
    proof {
        reveal_strlit("0");
        reveal_strlit("1");
        reveal_strlit("2");
        reveal_strlit("3");
        reveal_strlit("4");
        reveal_strlit("5");
        reveal_strlit("6");
        reveal_strlit("7");
        reveal_strlit("8");
        reveal_strlit("9");
    }
    if d == 0 {
        "0"
    } else if d == 1 {
        "1"
    } else if d == 2 {
        "2"
    } else if d == 3 {
        "3"
    } else if d == 4 {
        "4"
    } else if d == 5 {
        "5"
    } else if d == 6 {
        "6"
    } else if d == 7 {
        "7"
    } else if d == 8 {
        "8"
    } else {
        "9"
    }
}

/// Renders `n` as its decimal numeral.
pub fn usize_to_string(n: usize) -> (r: String)
    ensures
        r@ == dec_rep(n as nat),
    decreases n,
{
    if n < 10 {
        let r = digit_str(n).to_owned();
        proof {
            assert(r@ =~= dec_rep(n as nat));
        }
        r
    } else {
        let mut s = usize_to_string(n / 10);
        let d = digit_str(n % 10);
        s.append(d);
        proof {
            assert((n / 10) as nat == (n as nat) / 10);
            assert((n % 10) as nat == (n as nat) % 10);
            assert(s@ =~= dec_rep((n as nat) / 10).push(digit_char((n as nat) % 10)));
        }
        s
    }
}

} // verus!
