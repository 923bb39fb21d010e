//! The persisted text format: a bracketed list of records with named
//! fields, written with indentation for human readers, read back
//! tolerant of any whitespace and of the usual string escapes.  The
//! encoder and the parser are both verified, and parsing what was
//! encoded gives the tasks back exactly.

use vstd::prelude::*;
use vstd::string::StrSliceExecFns;

use crate::date::{parse_ymd, ymd_chars, Date};
use crate::task::{views_of, TaskView, Todo};
use crate::text::{dec_digits, digit_char, digit_val, is_digit, push_char, push_u64};

verus! {

// ---------------------------------------------------------------------
// The text itself: fixed pieces.
// ---------------------------------------------------------------------
pub open spec fn lit_name_id() -> Seq<char> {
    seq!['"', 'i', 'd', '"']
}

pub open spec fn lit_name_task() -> Seq<char> {
    seq!['"', 't', 'a', 's', 'k', '"']
}

pub open spec fn lit_name_completed() -> Seq<char> {
    seq!['"', 'c', 'o', 'm', 'p', 'l', 'e', 't', 'e', 'd', '"']
}

pub open spec fn lit_name_due_date() -> Seq<char> {
    seq!['"', 'd', 'u', 'e', '_', 'd', 'a', 't', 'e', '"']
}

pub open spec fn lit_true() -> Seq<char> {
    seq!['t', 'r', 'u', 'e']
}

pub open spec fn lit_false() -> Seq<char> {
    seq!['f', 'a', 'l', 's', 'e']
}

pub open spec fn lit_null() -> Seq<char> {
    seq!['n', 'u', 'l', 'l']
}

/// The separator written between fields: a comma, then the next line's
/// four-space indent.
pub open spec fn field_sep() -> Seq<char> {
    seq![',', '\n', ' ', ' ', ' ', ' ']
}

// ---------------------------------------------------------------------
// Escaping of description text.
// ---------------------------------------------------------------------
pub open spec fn hex_digit_char(v: int) -> char {
    if v < 10 {
        digit_char(v)
    } else {
        ((87 + v) as char)
    }
}

/// How one character is written inside quotes: quotes, backslashes and
/// control characters are escaped, everything else stands as itself.
pub open spec fn escape_char(c: char) -> Seq<char> {
    if c == '"' {
        seq!['\\', '"']
    } else if c == '\\' {
        seq!['\\', '\\']
    } else if c == '\n' {
        seq!['\\', 'n']
    } else if c == '\r' {
        seq!['\\', 'r']
    } else if c == '\t' {
        seq!['\\', 't']
    } else if (c as u32) < 32 {
        seq![
            '\\',
            'u',
            '0',
            '0',
            hex_digit_char(c as u32 as int / 16),
            hex_digit_char(c as u32 as int % 16),
        ]
    } else {
        seq![c]
    }
}

pub open spec fn escape_str(s: Seq<char>) -> Seq<char>
    decreases s.len(),
{
    if s.len() == 0 {
        Seq::empty()
    } else {
        escape_char(s[0]) + escape_str(s.drop_first())
    }
}

/// A string as written: quotes around the escaped characters.
pub open spec fn quoted(s: Seq<char>) -> Seq<char> {
    seq!['"'] + escape_str(s) + seq!['"']
}

pub open spec fn bool_chars(b: bool) -> Seq<char> {
    if b {
        lit_true()
    } else {
        lit_false()
    }
}

/// A due date as written: the quoted year-month-day text, or `null`.
pub open spec fn due_chars(due: Option<Date>) -> Seq<char> {
    match due {
        Some(d) => seq!['"'] + ymd_chars(d) + seq!['"'],
        None => lit_null(),
    }
}

/// A record's text from the separator before the due date field to the
/// closing brace.
pub open spec fn task_tail3(t: TaskView) -> Seq<char> {
    field_sep() + ((lit_name_due_date() + seq![':', ' ']) + (due_chars(t.due_date) + seq![
        '\n',
        ' ',
        ' ',
        '}',
    ]))
}

/// A record's text from the separator before the completed field on.
pub open spec fn task_tail2(t: TaskView) -> Seq<char> {
    field_sep() + ((lit_name_completed() + seq![':', ' ']) + (bool_chars(t.completed)
        + task_tail3(t)))
}

/// A record's text from the separator before the task field on.
pub open spec fn task_tail1(t: TaskView) -> Seq<char> {
    field_sep() + ((lit_name_task() + seq![':', ' ']) + (quoted(t.task) + task_tail2(t)))
}

/// One record as written, from its opening brace to its closing brace.
pub open spec fn encode_task(t: TaskView) -> Seq<char> {
    seq!['{', '\n', ' ', ' ', ' ', ' '] + ((lit_name_id() + seq![':', ' ']) + (dec_digits(
        t.id as int,
    ) + task_tail1(t)))
}

/// The records from position `k` on: each preceded by the list
/// separator, the last followed by the closing bracket on its own line.
pub open spec fn entries_from(ts: Seq<TaskView>, k: int) -> Seq<char>
    decreases ts.len() - k,
{
    if k < 0 || k >= ts.len() {
        seq!['\n', ']']
    } else {
        seq![',', '\n', ' ', ' '] + (encode_task(ts[k]) + entries_from(ts, k + 1))
    }
}

/// The whole persisted text for a task sequence.
pub open spec fn encode_doc(ts: Seq<TaskView>) -> Seq<char> {
    if ts.len() == 0 {
        seq!['[', ']']
    } else {
        seq!['[', '\n', ' ', ' '] + (encode_task(ts[0]) + entries_from(ts, 1))
    }
}

// ---------------------------------------------------------------------
// The encoder.
// ---------------------------------------------------------------------
fn push_hex_digit(out: &mut String, v: u32)
    requires
        v < 16,
    ensures
        final(out)@ == old(out)@.push(hex_digit_char(v as int)),
{
    if v < 10 {
        push_char(out, ((48 + v as u8) as char));
    } else {
        push_char(out, ((87 + v as u8) as char));
    }
}

fn push_escaped_char(out: &mut String, c: char)
    ensures
        final(out)@ == old(out)@ + escape_char(c),
{
    if c == '"' {
        push_char(out, '\\');
        push_char(out, '"');
    } else if c == '\\' {
        push_char(out, '\\');
        push_char(out, '\\');
    } else if c == '\n' {
        push_char(out, '\\');
        push_char(out, 'n');
    } else if c == '\r' {
        push_char(out, '\\');
        push_char(out, 'r');
    } else if c == '\t' {
        push_char(out, '\\');
        push_char(out, 't');
    } else if (c as u32) < 32 {
        let v = c as u32;
        push_char(out, '\\');
        push_char(out, 'u');
        push_char(out, '0');
        push_char(out, '0');
        push_hex_digit(out, v / 16);
        push_hex_digit(out, v % 16);
    } else {
        push_char(out, c);
    }
    proof {
        assert(final(out)@ =~= old(out)@ + escape_char(c));
    }
}

proof fn lemma_escape_str_push(s: Seq<char>, c: char)
    ensures
        escape_str(s.push(c)) == escape_str(s) + escape_char(c),
    decreases s.len(),
{
    if s.len() == 0 {
        assert(s.push(c).drop_first() =~= Seq::<char>::empty());
        assert(escape_str(s.push(c)) == escape_char(s.push(c)[0]) + escape_str(
            Seq::<char>::empty(),
        ));
        assert(s.push(c)[0] == c);
        assert(escape_char(c) + Seq::<char>::empty() =~= escape_char(c));
        assert(escape_str(s) + escape_char(c) =~= escape_char(c));
    } else {
        assert(s.push(c).drop_first() =~= s.drop_first().push(c));
        lemma_escape_str_push(s.drop_first(), c);
        assert(escape_str(s.push(c)) =~= escape_str(s) + escape_char(c));
    }
}

fn push_quoted(out: &mut String, s: &str)
    ensures
        final(out)@ == old(out)@ + quoted(s@),
{
    push_char(out, '"');
    let n = s.unicode_len();
    let mut i: usize = 0;
    proof {
        assert(escape_str(s@.take(0)) =~= Seq::<char>::empty());
        assert(out@ =~= old(out)@ + seq!['"'] + escape_str(s@.take(0)));
    }
    while i < n
        invariant
            i <= n,
            n == s@.len(),
            out@ == old(out)@ + seq!['"'] + escape_str(s@.take(i as int)),
        decreases n - i,
    {
        let c = s.get_char(i);
        push_escaped_char(out, c);
        i += 1;
        proof {
            assert(s@.take(i as int) =~= s@.take(i as int - 1).push(s@[i as int - 1]));
            lemma_escape_str_push(s@.take(i as int - 1), s@[i as int - 1]);
            assert(out@ =~= old(out)@ + seq!['"'] + escape_str(s@.take(i as int)));
        }
    }
    proof {
        assert(s@.take(n as int) =~= s@);
    }
    push_char(out, '"');
    proof {
        assert(final(out)@ =~= old(out)@ + quoted(s@));
    }
}

fn push_field_sep(out: &mut String)
    ensures
        final(out)@ == old(out)@ + field_sep(),
{
    push_char(out, ',');
    push_char(out, '\n');
    push_char(out, ' ');
    push_char(out, ' ');
    push_char(out, ' ');
    push_char(out, ' ');
    proof {
        assert(final(out)@ =~= old(out)@ + field_sep());
    }
}

fn push_due(out: &mut String, due: &Option<Date>)
    requires
        due matches Some(d) ==> d.valid(),
    ensures
        final(out)@ == old(out)@ + due_chars(*due),
{
    match due {
        Some(d) => {
            push_char(out, '"');
            crate::date::push_ymd(out, d);
            push_char(out, '"');
        },
        None => {
            push_char(out, 'n');
            push_char(out, 'u');
            push_char(out, 'l');
            push_char(out, 'l');
        },
    }
    proof {
        assert(final(out)@ =~= old(out)@ + due_chars(*due));
    }
}

#[verifier::rlimit(100)]
fn push_task_tail3(out: &mut String, t: &Todo)
    requires
        t@.dates_valid(),
    ensures
        final(out)@ == old(out)@ + task_tail3(t@),
{
    push_field_sep(out);
    push_char(out, '"');
    push_char(out, 'd');
    push_char(out, 'u');
    push_char(out, 'e');
    push_char(out, '_');
    push_char(out, 'd');
    push_char(out, 'a');
    push_char(out, 't');
    push_char(out, 'e');
    push_char(out, '"');
    push_char(out, ':');
    push_char(out, ' ');
    push_due(out, &t.due_date);
    push_char(out, '\n');
    push_char(out, ' ');
    push_char(out, ' ');
    push_char(out, '}');
    proof {
        assert(final(out)@ =~= old(out)@ + task_tail3(t@));
    }
}

fn push_task_tail2(out: &mut String, t: &Todo)
    requires
        t@.dates_valid(),
    ensures
        final(out)@ == old(out)@ + task_tail2(t@),
{
    push_field_sep(out);
    push_char(out, '"');
    push_char(out, 'c');
    push_char(out, 'o');
    push_char(out, 'm');
    push_char(out, 'p');
    push_char(out, 'l');
    push_char(out, 'e');
    push_char(out, 't');
    push_char(out, 'e');
    push_char(out, 'd');
    push_char(out, '"');
    push_char(out, ':');
    push_char(out, ' ');
    if t.completed {
        push_char(out, 't');
        push_char(out, 'r');
        push_char(out, 'u');
        push_char(out, 'e');
    } else {
        push_char(out, 'f');
        push_char(out, 'a');
        push_char(out, 'l');
        push_char(out, 's');
        push_char(out, 'e');
    }
    let ghost mid = out@;
    proof {
        assert(mid =~= old(out)@ + (field_sep() + ((lit_name_completed() + seq![':', ' '])
            + bool_chars(t@.completed))));
    }
    push_task_tail3(out, t);
    proof {
        assert(final(out)@ =~= old(out)@ + task_tail2(t@));
    }
}

fn push_task_tail1(out: &mut String, t: &Todo)
    requires
        t@.dates_valid(),
    ensures
        final(out)@ == old(out)@ + task_tail1(t@),
{
    push_field_sep(out);
    push_char(out, '"');
    push_char(out, 't');
    push_char(out, 'a');
    push_char(out, 's');
    push_char(out, 'k');
    push_char(out, '"');
    push_char(out, ':');
    push_char(out, ' ');
    push_quoted(out, t.task.as_str());
    let ghost mid = out@;
    proof {
        assert(mid =~= old(out)@ + (field_sep() + ((lit_name_task() + seq![':', ' ']) + quoted(
            t@.task,
        ))));
    }
    push_task_tail2(out, t);
    proof {
        assert(final(out)@ =~= old(out)@ + task_tail1(t@));
    }
}

fn push_task(out: &mut String, t: &Todo)
    requires
        t@.dates_valid(),
    ensures
        final(out)@ == old(out)@ + encode_task(t@),
{
    push_char(out, '{');
    push_char(out, '\n');
    push_char(out, ' ');
    push_char(out, ' ');
    push_char(out, ' ');
    push_char(out, ' ');
    push_char(out, '"');
    push_char(out, 'i');
    push_char(out, 'd');
    push_char(out, '"');
    push_char(out, ':');
    push_char(out, ' ');
    push_u64(out, t.id);
    let ghost mid = out@;
    proof {
        assert(mid =~= old(out)@ + (seq!['{', '\n', ' ', ' ', ' ', ' '] + ((lit_name_id() + seq![
            ':',
            ' ',
        ]) + dec_digits(t@.id as int))));
    }
    push_task_tail1(out, t);
    proof {
        assert(final(out)@ =~= old(out)@ + encode_task(t@));
    }
}

fn push_entries_from(out: &mut String, todos: &Vec<Todo>, k: usize)
    requires
        forall|i: int| 0 <= i < todos@.len() ==> (#[trigger] todos@[i]@).dates_valid(),
    ensures
        final(out)@ == old(out)@ + entries_from(views_of(todos@), k as int),
    decreases todos.len() - k,
{
    if k >= todos.len() {
        push_char(out, '\n');
        push_char(out, ']');
        proof {
            assert(final(out)@ =~= old(out)@ + entries_from(views_of(todos@), k as int));
        }
    } else {
        push_char(out, ',');
        push_char(out, '\n');
        push_char(out, ' ');
        push_char(out, ' ');
        push_task(out, &todos[k]);
        push_entries_from(out, todos, k + 1);
        proof {
            assert(views_of(todos@)[k as int] == todos@[k as int]@);
            assert(final(out)@ =~= old(out)@ + entries_from(views_of(todos@), k as int));
        }
    }
}

/// The full persisted text for the given tasks.
pub fn encode_tasks(todos: &Vec<Todo>) -> (r: String)
    requires
        forall|i: int| 0 <= i < todos@.len() ==> (#[trigger] todos@[i]@).dates_valid(),
    ensures
        r@ == encode_doc(views_of(todos@)),
{
    let mut out = String::new();
    if todos.len() == 0 {
        push_char(&mut out, '[');
        push_char(&mut out, ']');
        proof {
            assert(out@ =~= encode_doc(views_of(todos@)));
        }
    } else {
        push_char(&mut out, '[');
        push_char(&mut out, '\n');
        push_char(&mut out, ' ');
        push_char(&mut out, ' ');
        push_task(&mut out, &todos[0]);
        push_entries_from(&mut out, todos, 1);
        proof {
            assert(views_of(todos@)[0] == todos@[0]@);
            assert(out@ =~= encode_doc(views_of(todos@)));
        }
    }
    out
}

// ---------------------------------------------------------------------
// The reader: what any text of the schema means.  Whitespace between
// tokens is free; fields come in the fixed order; strings may use the
// usual escapes.
// ---------------------------------------------------------------------
pub open spec fn ws_char(c: char) -> bool {
    c == ' ' || c == '\n' || c == '\t' || c == '\r'
}

/// The first position at or after `i` holding no whitespace.
pub open spec fn skip_ws(s: Seq<char>, i: int) -> int
    decreases s.len() - i,
{
    if 0 <= i < s.len() && ws_char(s[i]) {
        skip_ws(s, i + 1)
    } else {
        i
    }
}

/// Consumes exactly the given literal text.
pub open spec fn parse_lit(s: Seq<char>, i: int, lit: Seq<char>) -> Option<int> {
    if 0 <= i && i + lit.len() <= s.len() && s.subrange(i, i + lit.len() as int) == lit {
        Some(i + lit.len() as int)
    } else {
        None
    }
}

/// The first position at or after `i` holding no decimal digit.
pub open spec fn skip_digits(s: Seq<char>, i: int) -> int
    decreases s.len() - i,
{
    if 0 <= i < s.len() && is_digit(s[i]) {
        skip_digits(s, i + 1)
    } else {
        i
    }
}

/// The number the digits at positions `i` up to `j` spell.
pub open spec fn digits_val(s: Seq<char>, i: int, j: int) -> int
    decreases j - i,
{
    if j <= i {
        0
    } else {
        digits_val(s, i, j - 1) * 10 + digit_val(s[j - 1])
    }
}

/// Consumes a run of digits; the value must fit the id type.
pub open spec fn parse_num(s: Seq<char>, i: int) -> Option<(u64, int)> {
    if 0 <= i < s.len() && is_digit(s[i]) {
        let j = skip_digits(s, i);
        let v = digits_val(s, i, j);
        if v <= u64::MAX {
            Some((v as u64, j))
        } else {
            None
        }
    } else {
        None
    }
}

pub open spec fn is_hex(c: char) -> bool {
    is_digit(c) || 97 <= c as u32 <= 102 || 65 <= c as u32 <= 70
}

pub open spec fn hex_val(c: char) -> int {
    if is_digit(c) {
        digit_val(c)
    } else if 97 <= c as u32 {
        c as u32 - 87
    } else {
        c as u32 - 55
    }
}

/// Consumes the characters of a quoted string after the opening quote,
/// resolving escapes, up to and including the closing quote.
pub open spec fn parse_str_body(s: Seq<char>, i: int, acc: Seq<char>) -> Option<(Seq<char>, int)>
    decreases s.len() - i,
{
    if i < 0 || i >= s.len() {
        None
    } else if s[i] == '"' {
        Some((acc, i + 1))
    } else if s[i] == '\\' {
        if i + 1 >= s.len() {
            None
        } else {
            let e = s[i + 1];
            if e == '"' {
                parse_str_body(s, i + 2, acc.push('"'))
            } else if e == '\\' {
                parse_str_body(s, i + 2, acc.push('\\'))
            } else if e == '/' {
                parse_str_body(s, i + 2, acc.push('/'))
            } else if e == 'n' {
                parse_str_body(s, i + 2, acc.push('\n'))
            } else if e == 'r' {
                parse_str_body(s, i + 2, acc.push('\r'))
            } else if e == 't' {
                parse_str_body(s, i + 2, acc.push('\t'))
            } else if e == 'b' {
                parse_str_body(s, i + 2, acc.push((8int as char)))
            } else if e == 'f' {
                parse_str_body(s, i + 2, acc.push((12int as char)))
            } else if e == 'u' {
                if i + 5 < s.len() && s[i + 2] == '0' && s[i + 3] == '0' && is_hex(s[i + 4])
                    && is_hex(s[i + 5]) {
                    parse_str_body(
                        s,
                        i + 6,
                        acc.push(((hex_val(s[i + 4]) * 16 + hex_val(s[i + 5])) as char)),
                    )
                } else {
                    None
                }
            } else {
                None
            }
        }
    } else if (s[i] as u32) < 32 {
        None
    } else {
        parse_str_body(s, i + 1, acc.push(s[i]))
    }
}

/// Consumes a quoted string.
pub open spec fn parse_string(s: Seq<char>, i: int) -> Option<(Seq<char>, int)> {
    if 0 <= i < s.len() && s[i] == '"' {
        parse_str_body(s, i + 1, Seq::empty())
    } else {
        None
    }
}

/// After a field name: optional whitespace, a colon, optional
/// whitespace; gives the position of the field's value.
pub open spec fn key_colon(s: Seq<char>, j: int) -> Option<int> {
    let k = skip_ws(s, j);
    if 0 <= k < s.len() && s[k] == ':' {
        Some(skip_ws(s, k + 1))
    } else {
        None
    }
}

/// Consumes a quoted field name and its colon.
pub open spec fn parse_key(s: Seq<char>, i: int, name: Seq<char>) -> Option<int> {
    match parse_lit(s, i, name) {
        None => None,
        Some(j) => key_colon(s, j),
    }
}

/// Consumes `true` or `false`.
pub open spec fn parse_bool(s: Seq<char>, i: int) -> Option<(bool, int)> {
    if 0 <= i < s.len() && s[i] == 't' {
        match parse_lit(s, i, lit_true()) {
            None => None,
            Some(j) => Some((true, j)),
        }
    } else {
        match parse_lit(s, i, lit_false()) {
            None => None,
            Some(j) => Some((false, j)),
        }
    }
}

/// Consumes a due date: `null`, or a quoted year-month-day date that
/// names a real calendar day.
pub open spec fn parse_due(s: Seq<char>, i: int) -> Option<(Option<Date>, int)> {
    if 0 <= i < s.len() && s[i] == 'n' {
        match parse_lit(s, i, lit_null()) {
            None => None,
            Some(j) => Some((None, j)),
        }
    } else {
        match parse_string(s, i) {
            None => None,
            Some((t, j)) => match parse_ymd(t) {
                None => None,
                Some(d) => Some((Some(d), j)),
            },
        }
    }
}

/// Consumes one record, brace to brace: the four fields in order, each
/// introduced by its name.  An id at the very top of the id type is
/// refused, so the next id after a load is always representable.
pub open spec fn parse_task(s: Seq<char>, i: int) -> Option<(TaskView, int)> {
    if !(0 <= i < s.len() && s[i] == '{') {
        None
    } else {
        match parse_key(s, skip_ws(s, i + 1), lit_name_id()) {
            None => None,
            Some(i1) => match parse_num(s, i1) {
                None => None,
                Some((id, i2)) => if id == u64::MAX {
                    None
                } else {
                    let i3 = skip_ws(s, i2);
                    if !(i3 < s.len() && s[i3] == ',') {
                        None
                    } else {
                        match parse_key(s, skip_ws(s, i3 + 1), lit_name_task()) {
                            None => None,
                            Some(i4) => match parse_string(s, i4) {
                                None => None,
                                Some((descr, i5)) => {
                                    let i6 = skip_ws(s, i5);
                                    if !(i6 < s.len() && s[i6] == ',') {
                                        None
                                    } else {
                                        match parse_key(s, skip_ws(s, i6 + 1), lit_name_completed()) {
                                            None => None,
                                            Some(i7) => match parse_bool(s, i7) {
                                                None => None,
                                                Some((done, i8)) => {
                                                    let i9 = skip_ws(s, i8);
                                                    if !(i9 < s.len() && s[i9] == ',') {
                                                        None
                                                    } else {
                                                        match parse_key(
                                                            s,
                                                            skip_ws(s, i9 + 1),
                                                            lit_name_due_date(),
                                                        ) {
                                                            None => None,
                                                            Some(i10) => match parse_due(s, i10) {
                                                                None => None,
                                                                Some((due, i11)) => {
                                                                    let i12 = skip_ws(s, i11);
                                                                    if i12 < s.len() && s[i12]
                                                                        == '}' {
                                                                        Some(
                                                                            (
                                                                                TaskView {
                                                                                    id,
                                                                                    task: descr,
                                                                                    completed: done,
                                                                                    due_date: due,
                                                                                },
                                                                                i12 + 1,
                                                                            ),
                                                                        )
                                                                    } else {
                                                                        None
                                                                    }
                                                                },
                                                            },
                                                        }
                                                    }
                                                },
                                            },
                                        }
                                    }
                                },
                            },
                        }
                    }
                },
            },
        }
    }
}

/// After one record: either the closing bracket, or a comma and the
/// next record, and so on.
pub open spec fn parse_items(s: Seq<char>, i: int, acc: Seq<TaskView>) -> Option<
    (Seq<TaskView>, int),
>
    decreases s.len() - i,
{
    let j = skip_ws(s, i);
    if !(0 <= j < s.len()) {
        None
    } else if s[j] == ']' {
        Some((acc, j + 1))
    } else if s[j] == ',' {
        let k = skip_ws(s, j + 1);
        match parse_task(s, k) {
            None => None,
            Some((t, i2)) => if i2 <= i || i2 > s.len() {
                None
            } else {
                parse_items(s, i2, acc.push(t))
            },
        }
    } else {
        None
    }
}

/// What a whole text means: the task sequence it holds, or nothing if
/// it is not of the schema.
pub open spec fn parse_doc(s: Seq<char>) -> Option<Seq<TaskView>> {
    let i = skip_ws(s, 0);
    if !(0 <= i < s.len() && s[i] == '[') {
        None
    } else {
        let j = skip_ws(s, i + 1);
        if 0 <= j < s.len() && s[j] == ']' {
            if skip_ws(s, j + 1) == s.len() {
                Some(Seq::empty())
            } else {
                None
            }
        } else {
            match parse_task(s, j) {
                None => None,
                Some((t, i2)) => match parse_items(s, i2, seq![t]) {
                    None => None,
                    Some((ts, i3)) => if skip_ws(s, i3) == s.len() {
                        Some(ts)
                    } else {
                        None
                    },
                },
            }
        }
    }
}

// ---------------------------------------------------------------------
// The reading code, each piece proved against the meaning above.
// ---------------------------------------------------------------------
fn skip_ws_x(s: &Vec<char>, i: usize) -> (r: usize)
    requires
        i <= s@.len(),
    ensures
        r == skip_ws(s@, i as int),
        i <= r <= s@.len(),
    decreases s@.len() - i,
{
    if i < s.len() && (s[i] == ' ' || s[i] == '\n' || s[i] == '\t' || s[i] == '\r') {
        skip_ws_x(s, i + 1)
    } else {
        i
    }
}

fn skip_digits_x(s: &Vec<char>, i: usize) -> (r: usize)
    requires
        i <= s@.len(),
    ensures
        r == skip_digits(s@, i as int),
        i <= r <= s@.len(),
    decreases s@.len() - i,
{
    if i < s.len() && 48 <= s[i] as u32 && s[i] as u32 <= 57 {
        skip_digits_x(s, i + 1)
    } else {
        i
    }
}

proof fn lemma_skip_digits_props(s: Seq<char>, i: int)
    requires
        0 <= i <= s.len(),
    ensures
        i <= skip_digits(s, i) <= s.len(),
        forall|k: int| i <= k < skip_digits(s, i) ==> is_digit(s[k]),
    decreases s.len() - i,
{
    if i < s.len() && is_digit(s[i]) {
        lemma_skip_digits_props(s, i + 1);
    }
}

proof fn lemma_digits_val_bounds(s: Seq<char>, i: int, k: int, j: int)
    requires
        i <= k <= j,
        forall|m: int| i <= m < j ==> is_digit(s[m]),
    ensures
        0 <= digits_val(s, i, k) <= digits_val(s, i, j),
    decreases j - k,
{
    if k == j {
        lemma_digits_val_nonneg(s, i, k);
    } else {
        lemma_digits_val_bounds(s, i, k, j - 1);
        assert(digits_val(s, i, j) == digits_val(s, i, j - 1) * 10 + digit_val(s[j - 1]));
        assert(digit_val(s[j - 1]) >= 0);
        assert(digits_val(s, i, j - 1) * 10 >= digits_val(s, i, j - 1));
    }
}

proof fn lemma_digits_val_nonneg(s: Seq<char>, i: int, j: int)
    requires
        forall|m: int| i <= m < j ==> is_digit(s[m]),
    ensures
        digits_val(s, i, j) >= 0,
    decreases j - i,
{
    if j > i {
        lemma_digits_val_nonneg(s, i, j - 1);
    }
}

fn parse_num_x(s: &Vec<char>, i: usize) -> (r: Option<(u64, usize)>)
    requires
        i <= s@.len(),
    ensures
        match r {
            Some((v, j)) => parse_num(s@, i as int) == Some((v, j as int)) && i < j <= s@.len(),
            None => parse_num(s@, i as int) is None,
        },
{
    if !(i < s.len() && 48 <= s[i] as u32 && s[i] as u32 <= 57) {
        return None;
    }
    let j = skip_digits_x(s, i);
    proof {
        lemma_skip_digits_props(s@, i as int);
        lemma_skip_digits_props(s@, i as int + 1);
        assert(skip_digits(s@, i as int) == skip_digits(s@, i as int + 1));
        assert(i < j);
    }
    let mut acc: u64 = 0;
    let mut k = i;
    while k < j
        invariant
            i <= k <= j <= s@.len(),
            j == skip_digits(s@, i as int),
            forall|m: int| i <= m < j ==> is_digit(s@[m]),
            acc == digits_val(s@, i as int, k as int),
        decreases j - k,
    {
        proof {
            assert(is_digit(s@[k as int]));
        }
        let d = (s[k] as u32 - 48) as u64;
        let m10 = acc.checked_mul(10);
        match m10 {
            None => {
                proof {
                    lemma_digits_val_bounds(s@, i as int, k as int + 1, j as int);
                }
                return None;
            },
            Some(a10) => {
                match a10.checked_add(d) {
                    None => {
                        proof {
                            lemma_digits_val_bounds(s@, i as int, k as int + 1, j as int);
                        }
                        return None;
                    },
                    Some(a) => {
                        acc = a;
                    },
                }
            },
        }
        k += 1;
    }
    Some((acc, j))
}

fn hex_val_x(c: char) -> (r: Option<u8>)
    ensures
        r matches Some(v) ==> is_hex(c) && v == hex_val(c) && v < 16,
        r is None ==> !is_hex(c),
{
    let u = c as u32;
    if 48 <= u && u <= 57 {
        Some((u - 48) as u8)
    } else if 97 <= u && u <= 102 {
        Some((u - 87) as u8)
    } else if 65 <= u && u <= 70 {
        Some((u - 55) as u8)
    } else {
        None
    }
}

fn parse_str_body_x(s: &Vec<char>, i: usize, acc: String) -> (r: Option<(String, usize)>)
    requires
        i <= s@.len(),
    ensures
        match r {
            Some((out, j)) => parse_str_body(s@, i as int, acc@) == Some((out@, j as int)) && j
                <= s@.len(),
            None => parse_str_body(s@, i as int, acc@) is None,
        },
    decreases s@.len() - i,
{
    if i >= s.len() {
        return None;
    }
    let c = s[i];
    if c == '"' {
        return Some((acc, i + 1));
    }
    let mut acc2 = acc;
    if c == '\\' {
        if i + 1 >= s.len() {
            return None;
        }
        let e = s[i + 1];
        if e == '"' {
            push_char(&mut acc2, '"');
            parse_str_body_x(s, i + 2, acc2)
        } else if e == '\\' {
            push_char(&mut acc2, '\\');
            parse_str_body_x(s, i + 2, acc2)
        } else if e == '/' {
            push_char(&mut acc2, '/');
            parse_str_body_x(s, i + 2, acc2)
        } else if e == 'n' {
            push_char(&mut acc2, '\n');
            parse_str_body_x(s, i + 2, acc2)
        } else if e == 'r' {
            push_char(&mut acc2, '\r');
            parse_str_body_x(s, i + 2, acc2)
        } else if e == 't' {
            push_char(&mut acc2, '\t');
            parse_str_body_x(s, i + 2, acc2)
        } else if e == 'b' {
            push_char(&mut acc2, (8u8 as char));
            parse_str_body_x(s, i + 2, acc2)
        } else if e == 'f' {
            push_char(&mut acc2, (12u8 as char));
            parse_str_body_x(s, i + 2, acc2)
        } else if e == 'u' {
            if s.len() - i > 5 && s[i + 2] == '0' && s[i + 3] == '0' {
                match (hex_val_x(s[i + 4]), hex_val_x(s[i + 5])) {
                    (Some(h1), Some(h2)) => {
                        let v: u8 = h1 * 16 + h2;
                        push_char(&mut acc2, (v as char));
                        parse_str_body_x(s, i + 6, acc2)
                    },
                    _ => None,
                }
            } else {
                None
            }
        } else {
            None
        }
    } else if (c as u32) < 32 {
        None
    } else {
        push_char(&mut acc2, c);
        parse_str_body_x(s, i + 1, acc2)
    }
}

fn parse_string_x(s: &Vec<char>, i: usize) -> (r: Option<(String, usize)>)
    requires
        i <= s@.len(),
    ensures
        match r {
            Some((out, j)) => parse_string(s@, i as int) == Some((out@, j as int)) && j <= s@.len(),
            None => parse_string(s@, i as int) is None,
        },
{
    if i < s.len() && s[i] == '"' {
        parse_str_body_x(s, i + 1, String::new())
    } else {
        None
    }
}

fn key_colon_x(s: &Vec<char>, j: usize) -> (r: Option<usize>)
    requires
        j <= s@.len(),
    ensures
        match r {
            Some(k) => key_colon(s@, j as int) == Some(k as int) && k <= s@.len(),
            None => key_colon(s@, j as int) is None,
        },
{
    let k = skip_ws_x(s, j);
    if k < s.len() && s[k] == ':' {
        Some(skip_ws_x(s, k + 1))
    } else {
        None
    }
}

fn match_lit_name_id(s: &Vec<char>, i: usize) -> (r: Option<usize>)
    requires
        i <= s@.len(),
    ensures
        match r {
            Some(j) => parse_lit(s@, i as int, lit_name_id()) == Some(j as int) && j <= s@.len(),
            None => parse_lit(s@, i as int, lit_name_id()) is None,
        },
{
    if s.len() - i >= 4 && s[i] == '"' && s[i + 1] == 'i' && s[i + 2] == 'd' && s[i + 3] == '"' {
        proof {
            assert(s@.subrange(i as int, i as int + 4) =~= lit_name_id());
        }
        Some(i + 4)
    } else {
        proof {
            if parse_lit(s@, i as int, lit_name_id()) is Some {
                let t = s@.subrange(i as int, i as int + 4);
                assert(t[0] == '"' && t[1] == 'i' && t[2] == 'd' && t[3] == '"');
                assert(false);
            }
        }
        None
    }
}

fn match_lit_name_task(s: &Vec<char>, i: usize) -> (r: Option<usize>)
    requires
        i <= s@.len(),
    ensures
        match r {
            Some(j) => parse_lit(s@, i as int, lit_name_task()) == Some(j as int) && j <= s@.len(),
            None => parse_lit(s@, i as int, lit_name_task()) is None,
        },
{
    if s.len() - i >= 6 && s[i] == '"' && s[i + 1] == 't' && s[i + 2] == 'a' && s[i + 3] == 's' && s[i
        + 4] == 'k' && s[i + 5] == '"' {
        proof {
            assert(s@.subrange(i as int, i as int + 6) =~= lit_name_task());
        }
        Some(i + 6)
    } else {
        proof {
            if parse_lit(s@, i as int, lit_name_task()) is Some {
                let t = s@.subrange(i as int, i as int + 6);
                assert(t[0] == '"' && t[1] == 't' && t[2] == 'a' && t[3] == 's' && t[4] == 'k' && t[5]
                    == '"');
                assert(false);
            }
        }
        None
    }
}

fn match_lit_name_completed(s: &Vec<char>, i: usize) -> (r: Option<usize>)
    requires
        i <= s@.len(),
    ensures
        match r {
            Some(j) => parse_lit(s@, i as int, lit_name_completed()) == Some(j as int) && j
                <= s@.len(),
            None => parse_lit(s@, i as int, lit_name_completed()) is None,
        },
{
    if s.len() - i >= 11 && s[i] == '"' && s[i + 1] == 'c' && s[i + 2] == 'o' && s[i + 3] == 'm' && s[i
        + 4] == 'p' && s[i + 5] == 'l' && s[i + 6] == 'e' && s[i + 7] == 't' && s[i + 8] == 'e' && s[i
        + 9] == 'd' && s[i + 10] == '"' {
        proof {
            assert(s@.subrange(i as int, i as int + 11) =~= lit_name_completed());
        }
        Some(i + 11)
    } else {
        proof {
            if parse_lit(s@, i as int, lit_name_completed()) is Some {
                let t = s@.subrange(i as int, i as int + 11);
                assert(t[0] == '"' && t[1] == 'c' && t[2] == 'o' && t[3] == 'm' && t[4] == 'p' && t[5]
                    == 'l' && t[6] == 'e' && t[7] == 't' && t[8] == 'e' && t[9] == 'd' && t[10]
                    == '"');
                assert(false);
            }
        }
        None
    }
}

fn match_lit_name_due_date(s: &Vec<char>, i: usize) -> (r: Option<usize>)
    requires
        i <= s@.len(),
    ensures
        match r {
            Some(j) => parse_lit(s@, i as int, lit_name_due_date()) == Some(j as int) && j
                <= s@.len(),
            None => parse_lit(s@, i as int, lit_name_due_date()) is None,
        },
{
    if s.len() - i >= 10 && s[i] == '"' && s[i + 1] == 'd' && s[i + 2] == 'u' && s[i + 3] == 'e' && s[i
        + 4] == '_' && s[i + 5] == 'd' && s[i + 6] == 'a' && s[i + 7] == 't' && s[i + 8] == 'e' && s[i
        + 9] == '"' {
        proof {
            assert(s@.subrange(i as int, i as int + 10) =~= lit_name_due_date());
        }
        Some(i + 10)
    } else {
        proof {
            if parse_lit(s@, i as int, lit_name_due_date()) is Some {
                let t = s@.subrange(i as int, i as int + 10);
                assert(t[0] == '"' && t[1] == 'd' && t[2] == 'u' && t[3] == 'e' && t[4] == '_' && t[5]
                    == 'd' && t[6] == 'a' && t[7] == 't' && t[8] == 'e' && t[9] == '"');
                assert(false);
            }
        }
        None
    }
}

fn parse_bool_x(s: &Vec<char>, i: usize) -> (r: Option<(bool, usize)>)
    requires
        i <= s@.len(),
    ensures
        match r {
            Some((b, j)) => parse_bool(s@, i as int) == Some((b, j as int)) && j <= s@.len(),
            None => parse_bool(s@, i as int) is None,
        },
{
    if i < s.len() && s[i] == 't' {
        if s.len() - i >= 4 && s[i + 1] == 'r' && s[i + 2] == 'u' && s[i + 3] == 'e' {
            proof {
                assert(s@.subrange(i as int, i as int + 4) =~= lit_true());
            }
            Some((true, i + 4))
        } else {
            proof {
                if parse_lit(s@, i as int, lit_true()) is Some {
                    let t = s@.subrange(i as int, i as int + 4);
                    assert(t[0] == 't' && t[1] == 'r' && t[2] == 'u' && t[3] == 'e');
                    assert(false);
                }
            }
            None
        }
    } else {
        if s.len() - i >= 5 && s[i] == 'f' && s[i + 1] == 'a' && s[i + 2] == 'l' && s[i + 3] == 's'
            && s[i + 4] == 'e' {
            proof {
                assert(s@.subrange(i as int, i as int + 5) =~= lit_false());
            }
            Some((false, i + 5))
        } else {
            proof {
                if parse_lit(s@, i as int, lit_false()) is Some {
                    let t = s@.subrange(i as int, i as int + 5);
                    assert(t[0] == 'f' && t[1] == 'a' && t[2] == 'l' && t[3] == 's' && t[4] == 'e');
                    assert(false);
                }
            }
            None
        }
    }
}

fn parse_due_x(s: &Vec<char>, i: usize) -> (r: Option<(Option<Date>, usize)>)
    requires
        i <= s@.len(),
    ensures
        match r {
            Some((due, j)) => parse_due(s@, i as int) == Some((due, j as int)) && j <= s@.len(),
            None => parse_due(s@, i as int) is None,
        },
{
    if i < s.len() && s[i] == 'n' {
        if s.len() - i >= 4 && s[i + 1] == 'u' && s[i + 2] == 'l' && s[i + 3] == 'l' {
            proof {
                assert(s@.subrange(i as int, i as int + 4) =~= lit_null());
            }
            Some((None, i + 4))
        } else {
            proof {
                if parse_lit(s@, i as int, lit_null()) is Some {
                    let t = s@.subrange(i as int, i as int + 4);
                    assert(t[0] == 'n' && t[1] == 'u' && t[2] == 'l' && t[3] == 'l');
                    assert(false);
                }
            }
            None
        }
    } else {
        match parse_string_x(s, i) {
            None => None,
            Some((t, j)) => {
                match crate::date::parse_ymd_str(&t) {
                    None => None,
                    Some(d) => Some((Some(d), j)),
                }
            },
        }
    }
}

fn parse_task_x(s: &Vec<char>, i: usize) -> (r: Option<(Todo, usize)>)
    requires
        i <= s@.len(),
    ensures
        match r {
            Some((t, j)) => parse_task(s@, i as int) == Some((t@, j as int)) && j <= s@.len(),
            None => parse_task(s@, i as int) is None,
        },
{
    if !(i < s.len() && s[i] == '{') {
        return None;
    }
    let i0 = skip_ws_x(s, i + 1);
    let i1 = match match_lit_name_id(s, i0) {
        None => {
            return None;
        },
        Some(j) => match key_colon_x(s, j) {
            None => {
                return None;
            },
            Some(k) => k,
        },
    };
    let (id, i2) = match parse_num_x(s, i1) {
        None => {
            return None;
        },
        Some(p) => p,
    };
    if id == u64::MAX {
        return None;
    }
    let i3 = skip_ws_x(s, i2);
    if !(i3 < s.len() && s[i3] == ',') {
        return None;
    }
    let i3b = skip_ws_x(s, i3 + 1);
    let i4 = match match_lit_name_task(s, i3b) {
        None => {
            return None;
        },
        Some(j) => match key_colon_x(s, j) {
            None => {
                return None;
            },
            Some(k) => k,
        },
    };
    let (descr, i5) = match parse_string_x(s, i4) {
        None => {
            return None;
        },
        Some(p) => p,
    };
    let i6 = skip_ws_x(s, i5);
    if !(i6 < s.len() && s[i6] == ',') {
        return None;
    }
    let i6b = skip_ws_x(s, i6 + 1);
    let i7 = match match_lit_name_completed(s, i6b) {
        None => {
            return None;
        },
        Some(j) => match key_colon_x(s, j) {
            None => {
                return None;
            },
            Some(k) => k,
        },
    };
    let (done, i8) = match parse_bool_x(s, i7) {
        None => {
            return None;
        },
        Some(p) => p,
    };
    let i9 = skip_ws_x(s, i8);
    if !(i9 < s.len() && s[i9] == ',') {
        return None;
    }
    let i9b = skip_ws_x(s, i9 + 1);
    let i10 = match match_lit_name_due_date(s, i9b) {
        None => {
            return None;
        },
        Some(j) => match key_colon_x(s, j) {
            None => {
                return None;
            },
            Some(k) => k,
        },
    };
    let (due, i11) = match parse_due_x(s, i10) {
        None => {
            return None;
        },
        Some(p) => p,
    };
    let i12 = skip_ws_x(s, i11);
    if i12 < s.len() && s[i12] == '}' {
        Some((Todo { id, task: descr, completed: done, due_date: due }, i12 + 1))
    } else {
        None
    }
}

fn parse_items_x(s: &Vec<char>, i: usize, acc: Vec<Todo>) -> (r: Option<(Vec<Todo>, usize)>)
    requires
        i <= s@.len(),
    ensures
        match r {
            Some((v, j)) => parse_items(s@, i as int, views_of(acc@)) == Some(
                (views_of(v@), j as int),
            ) && j <= s@.len(),
            None => parse_items(s@, i as int, views_of(acc@)) is None,
        },
    decreases s@.len() - i,
{
    let j = skip_ws_x(s, i);
    if !(j < s.len()) {
        return None;
    }
    if s[j] == ']' {
        return Some((acc, j + 1));
    }
    if s[j] != ',' {
        return None;
    }
    let k = skip_ws_x(s, j + 1);
    match parse_task_x(s, k) {
        None => None,
        Some((t, i2)) => {
            if i2 <= i {
                return None;
            }
            let ghost acc0 = acc@;
            let ghost tv = t@;
            let mut acc2 = acc;
            acc2.push(t);
            proof {
                assert(views_of(acc2@) =~= views_of(acc0).push(tv));
            }
            parse_items_x(s, i2, acc2)
        },
    }
}

/// Reads a whole persisted text; gives the tasks it holds, or nothing
/// if the text is not of the schema.
pub fn parse_doc_x(s: &Vec<char>) -> (r: Option<Vec<Todo>>)
    ensures
        match r {
            Some(v) => parse_doc(s@) == Some(views_of(v@)),
            None => parse_doc(s@) is None,
        },
{
    let i = skip_ws_x(s, 0);
    if !(i < s.len() && s[i] == '[') {
        return None;
    }
    let j = skip_ws_x(s, i + 1);
    if j < s.len() && s[j] == ']' {
        if skip_ws_x(s, j + 1) == s.len() {
            let empty: Vec<Todo> = Vec::new();
            proof {
                assert(views_of(empty@) =~= Seq::<TaskView>::empty());
            }
            return Some(empty);
        } else {
            return None;
        }
    }
    match parse_task_x(s, j) {
        None => None,
        Some((t, i2)) => {
            let ghost tv = t@;
            let mut start: Vec<Todo> = Vec::new();
            start.push(t);
            proof {
                assert(views_of(start@) =~= seq![tv]);
            }
            match parse_items_x(s, i2, start) {
                None => None,
                Some((ts, i3)) => {
                    if skip_ws_x(s, i3) == s.len() {
                        Some(ts)
                    } else {
                        None
                    }
                },
            }
        },
    }
}

// ---------------------------------------------------------------------
// Reading back what was written gives the tasks back exactly.
// ---------------------------------------------------------------------
/// The text `t` stands at position `i` of `s`.
pub open spec fn text_at(s: Seq<char>, i: int, t: Seq<char>) -> bool {
    &&& 0 <= i
    &&& i + t.len() <= s.len()
    &&& s.subrange(i, i + t.len() as int) == t
}

proof fn lemma_text_split(s: Seq<char>, i: int, a: Seq<char>, b: Seq<char>)
    requires
        text_at(s, i, a + b),
    ensures
        text_at(s, i, a),
        text_at(s, i + a.len(), b),
{
    let whole = s.subrange(i, i + a.len() + b.len());
    assert forall|m: int| 0 <= m < a.len() implies a[m] == s[i + m] by {
        assert(whole[m] == (a + b)[m]);
    }
    assert(s.subrange(i, i + a.len() as int) =~= a);
    assert forall|m: int| 0 <= m < b.len() implies b[m] == s[i + a.len() + m] by {
        assert(whole[a.len() + m] == (a + b)[a.len() + m]);
    }
    assert(s.subrange(i + a.len(), i + a.len() + b.len()) =~= b);
}

proof fn lemma_skip_ws_run(s: Seq<char>, i: int, k: int)
    requires
        0 <= i,
        0 <= k,
        i + k < s.len(),
        forall|m: int| i <= m < i + k ==> ws_char(s[m]),
        !ws_char(s[i + k]),
    ensures
        skip_ws(s, i) == i + k,
    decreases k,
{
    if k > 0 {
        lemma_skip_ws_run(s, i + 1, k - 1);
    }
}

proof fn lemma_skip_digits_run(s: Seq<char>, i: int, k: int)
    requires
        0 <= i,
        0 <= k,
        i + k <= s.len(),
        forall|m: int| i <= m < i + k ==> is_digit(s[m]),
        i + k < s.len() ==> !is_digit(s[i + k]),
    ensures
        skip_digits(s, i) == i + k,
    decreases k,
{
    if k > 0 {
        lemma_skip_digits_run(s, i + 1, k - 1);
    }
}

proof fn lemma_dec_digits_are_digits(n: int)
    requires
        n >= 0,
    ensures
        dec_digits(n).len() >= 1,
        forall|k: int| 0 <= k < dec_digits(n).len() ==> is_digit(#[trigger] dec_digits(n)[k]),
    decreases n,
{
    if n >= 10 {
        lemma_dec_digits_are_digits(n / 10);
    }
}

proof fn lemma_digits_val_of_dec(s: Seq<char>, i: int, n: int)
    requires
        n >= 0,
        text_at(s, i, dec_digits(n)),
    ensures
        digits_val(s, i, i + dec_digits(n).len()) == n,
    decreases n,
{
    let dd = dec_digits(n);
    let l = dd.len() as int;
    if n < 10 {
        assert(digits_val(s, i, i + 1) == digits_val(s, i, i) * 10 + digit_val(s[i]));
        assert(s.subrange(i, i + 1)[0] == dd[0]);
        assert(s[i] == digit_char(n));
    } else {
        let head = dec_digits(n / 10);
        assert(dd == head.push(digit_char(n % 10)));
        assert(head + seq![digit_char(n % 10)] =~= dd);
        lemma_text_split(s, i, head, seq![digit_char(n % 10)]);
        lemma_digits_val_of_dec(s, i, n / 10);
        assert(s.subrange(i + l - 1, i + l)[0] == digit_char(n % 10));
        assert(s[i + l - 1] == digit_char(n % 10));
        assert(digits_val(s, i, i + l) == digits_val(s, i, i + l - 1) * 10 + digit_val(
            s[i + l - 1],
        ));
        vstd::arithmetic::div_mod::lemma_fundamental_div_mod(n, 10);
    }
}

proof fn lemma_parse_num_at(s: Seq<char>, i: int, n: u64)
    requires
        text_at(s, i, dec_digits(n as int)),
        i + dec_digits(n as int).len() < s.len() ==> !is_digit(s[i + dec_digits(n as int).len()]),
    ensures
        parse_num(s, i) == Some((n, i + dec_digits(n as int).len())),
{
    let dd = dec_digits(n as int);
    let l = dd.len() as int;
    lemma_dec_digits_are_digits(n as int);
    assert forall|m: int| i <= m < i + l implies is_digit(s[m]) by {
        assert(s.subrange(i, i + l)[m - i] == dd[m - i]);
        assert(is_digit(dd[m - i]));
    }
    lemma_skip_digits_run(s, i, l);
    lemma_digits_val_of_dec(s, i, n as int);
    assert(is_digit(s[i]));
}

proof fn lemma_hex_roundtrip(x: int)
    requires
        0 <= x < 16,
    ensures
        is_hex(hex_digit_char(x)),
        hex_val(hex_digit_char(x)) == x,
{
}

proof fn lemma_parse_str_body_at(s: Seq<char>, i: int, content: Seq<char>, acc: Seq<char>)
    requires
        text_at(s, i, escape_str(content) + seq!['"']),
    ensures
        parse_str_body(s, i, acc) == Some(
            (acc + content, i + escape_str(content).len() + 1),
        ),
    decreases content.len(),
{
    let whole = escape_str(content) + seq!['"'];
    if content.len() == 0 {
        assert(s.subrange(i, i + 1)[0] == whole[0]);
        assert(s[i] == '"');
        assert(acc + content =~= acc);
    } else {
        let c0 = content[0];
        let rest = content.drop_first();
        let e0 = escape_char(c0);
        assert(escape_str(content) == e0 + escape_str(rest));
        assert(e0 + (escape_str(rest) + seq!['"']) =~= whole);
        lemma_text_split(s, i, e0, escape_str(rest) + seq!['"']);
        let l0 = e0.len() as int;
        assert forall|m: int| 0 <= m < l0 implies s[i + m] == e0[m] by {
            assert(s.subrange(i, i + l0)[m] == e0[m]);
            assert(s.subrange(i, i + l0)[m] == s[i + m]);
        }
        assert(s[i + 0] == e0[0]);
        assert(s[i] == e0[0]);
        if l0 >= 2 {
            assert(s[i + 1] == e0[1]);
        }
        lemma_parse_str_body_at(s, i + l0, rest, acc.push(c0));
        assert(acc.push(c0) + rest =~= acc + content);
        if c0 == '"' || c0 == '\\' || c0 == '\n' || c0 == '\r' || c0 == '\t' {
            assert(s[i] == '\\');
            assert(parse_str_body(s, i, acc) == parse_str_body(s, i + 2, acc.push(c0)));
        } else if (c0 as u32) < 32 {
            let v = c0 as u32 as int;
            assert(s[i + 2] == '0' && s[i + 3] == '0');
            assert(s[i + 4] == hex_digit_char(v / 16));
            assert(s[i + 5] == hex_digit_char(v % 16));
            lemma_hex_roundtrip(v / 16);
            lemma_hex_roundtrip(v % 16);
            vstd::arithmetic::div_mod::lemma_fundamental_div_mod(v, 16);
            assert(hex_val(s[i + 4]) * 16 + hex_val(s[i + 5]) == v);
            vstd::utf8::char_u32_cast(c0, (v as u32));
            assert((v as char) == c0);
            assert(parse_str_body(s, i, acc) == parse_str_body(s, i + 6, acc.push(c0)));
        } else {
            assert(s[i] == c0);
            assert(parse_str_body(s, i, acc) == parse_str_body(s, i + 1, acc.push(c0)));
        }
    }
}

proof fn lemma_parse_string_at(s: Seq<char>, i: int, content: Seq<char>)
    requires
        text_at(s, i, quoted(content)),
    ensures
        parse_string(s, i) == Some((content, i + quoted(content).len())),
        quoted(content).len() >= 2,
{
    assert(seq!['"'] + (escape_str(content) + seq!['"']) =~= quoted(content));
    lemma_text_split(s, i, seq!['"'], escape_str(content) + seq!['"']);
    assert(s.subrange(i, i + 1)[0] == '"');
    assert(s[i] == '"');
    lemma_parse_str_body_at(s, i + 1, content, Seq::empty());
    assert(Seq::empty() + content =~= content);
}

proof fn lemma_escape_plain(t: Seq<char>)
    requires
        forall|k: int|
            0 <= k < t.len() ==> (#[trigger] t[k]) != '"' && t[k] != '\\' && 32 <= t[k] as u32,
    ensures
        escape_str(t) == t,
    decreases t.len(),
{
    if t.len() > 0 {
        assert(escape_char(t[0]) == seq![t[0]]);
        lemma_escape_plain(t.drop_first());
        assert(seq![t[0]] + t.drop_first() =~= t);
    }
}

proof fn lemma_parse_key_at(s: Seq<char>, i: int, name: Seq<char>)
    requires
        text_at(s, i, name + seq![':', ' ']),
        i + name.len() + 2 < s.len(),
        !ws_char(s[i + name.len() + 2]),
    ensures
        parse_key(s, i, name) == Some(i + name.len() + 2),
{
    lemma_text_split(s, i, name, seq![':', ' ']);
    let j = i + name.len() as int;
    assert(s.subrange(j, j + 2)[0] == ':');
    assert(s.subrange(j, j + 2)[1] == ' ');
    assert(s[j] == ':' && s[j + 1] == ' ');
    assert(parse_lit(s, i, name) == Some(j));
    lemma_skip_ws_run(s, j, 0);
    lemma_skip_ws_run(s, j + 1, 1);
}

proof fn lemma_parse_due_at(s: Seq<char>, i: int, due: Option<Date>)
    requires
        text_at(s, i, due_chars(due)),
        due matches Some(d) ==> d.valid(),
    ensures
        parse_due(s, i) == Some((due, i + due_chars(due).len())),
{
    match due {
        None => {
            assert(s.subrange(i, i + 4)[0] == 'n');
            assert(s[i] == 'n');
            assert(parse_lit(s, i, lit_null()) == Some(i + 4));
        },
        Some(d) => {
            crate::date::lemma_parse_ymd_of_chars(d);
            lemma_escape_plain(ymd_chars(d));
            assert(quoted(ymd_chars(d)) =~= due_chars(due));
            lemma_parse_string_at(s, i, ymd_chars(d));
            assert(s.subrange(i, i + due_chars(due).len() as int)[0] == '"');
            assert(s[i] == '"');
            assert(s[i] != 'n');
        },
    }
}

/// After a comma or brace, the writer puts one newline and `n` spaces,
/// and then something that is not whitespace: the reader's whitespace
/// skip stops exactly there.
proof fn lemma_skip_indent(s: Seq<char>, i: int, n: int)
    requires
        0 <= i,
        0 <= n,
        i + n + 1 < s.len(),
        s[i] == '\n',
        forall|m: int| i < m < i + n + 1 ==> s[m] == ' ',
        !ws_char(s[i + n + 1]),
    ensures
        skip_ws(s, i) == i + n + 1,
{
    lemma_skip_ws_run(s, i, n + 1);
}

#[verifier::rlimit(100)]
#[verifier::spinoff_prover]
proof fn lemma_task_front(s: Seq<char>, i: int, t: TaskView)
    requires
        text_at(s, i, encode_task(t)),
        t.id < u64::MAX,
    ensures
        0 <= i < s.len() && s[i] == '{',
        skip_ws(s, i + 1) == i + 6,
        parse_key(s, i + 6, lit_name_id()) == Some(i + 12),
        parse_num(s, i + 12) == Some((t.id, i + 12 + dec_digits(t.id as int).len())),
        text_at(s, i + 12 + dec_digits(t.id as int).len(), task_tail1(t)),
        encode_task(t).len() == 12 + dec_digits(t.id as int).len() + task_tail1(t).len(),
{
    let c1 = seq!['{', '\n', ' ', ' ', ' ', ' '];
    let c2 = lit_name_id() + seq![':', ' '];
    let c3 = dec_digits(t.id as int);
    let r3 = c3 + task_tail1(t);
    let r2 = c2 + r3;
    assert(encode_task(t) == c1 + r2);
    lemma_text_split(s, i, c1, r2);
    let p2 = i + 6;
    lemma_text_split(s, p2, c2, r3);
    let p3 = p2 + 6;
    lemma_text_split(s, p3, c3, task_tail1(t));
    let p4 = p3 + c3.len() as int;
    assert(s.subrange(i, i + 6)[0] == '{');
    assert(s[i] == '{');
    assert(s.subrange(i, i + 6)[1] == '\n');
    assert forall|m: int| i + 1 < m < i + 6 implies s[m] == ' ' by {
        assert(s.subrange(i, i + 6)[m - i] == c1[m - i]);
    }
    assert(s.subrange(p2, p2 + 6)[0] == c2[0]);
    assert(c2[0] == '"');
    lemma_skip_indent(s, i + 1, 4);
    lemma_dec_digits_are_digits(t.id as int);
    assert(!ws_char(c3[0]));
    assert(s.subrange(p3, p3 + c3.len())[0] == c3[0]);
    lemma_parse_key_at(s, p2, lit_name_id());
    assert(s.subrange(p4, p4 + task_tail1(t).len() as int)[0] == task_tail1(t)[0]);
    assert(task_tail1(t)[0] == ',');
    lemma_parse_num_at(s, p3, t.id);
}

#[verifier::rlimit(100)]
#[verifier::spinoff_prover]
proof fn lemma_task_mid1(s: Seq<char>, q: int, t: TaskView)
    requires
        text_at(s, q, task_tail1(t)),
    ensures
        q < s.len() && s[q] == ',' && skip_ws(s, q) == q,
        skip_ws(s, q + 1) == q + 6,
        parse_key(s, q + 6, lit_name_task()) == Some(q + 14),
        parse_string(s, q + 14) == Some((t.task, q + 14 + quoted(t.task).len())),
        text_at(s, q + 14 + quoted(t.task).len(), task_tail2(t)),
        task_tail1(t).len() == 14 + quoted(t.task).len() + task_tail2(t).len(),
{
    let c4 = field_sep();
    let c5 = lit_name_task() + seq![':', ' '];
    let c6 = quoted(t.task);
    let r5 = c5 + (c6 + task_tail2(t));
    assert(task_tail1(t) == c4 + r5);
    lemma_text_split(s, q, c4, r5);
    let p5 = q + 6;
    lemma_text_split(s, p5, c5, c6 + task_tail2(t));
    let p6 = p5 + 8;
    lemma_text_split(s, p6, c6, task_tail2(t));
    let p7 = p6 + c6.len() as int;
    assert(s.subrange(q, q + 6)[0] == ',');
    assert(s[q] == ',');
    assert(s.subrange(q, q + 6)[1] == '\n');
    assert forall|m: int| q + 1 < m < q + 6 implies s[m] == ' ' by {
        assert(s.subrange(q, q + 6)[m - q] == c4[m - q]);
    }
    assert(s.subrange(p5, p5 + 8)[0] == c5[0]);
    assert(c5[0] == '"');
    lemma_skip_indent(s, q + 1, 4);
    assert(s.subrange(p6, p6 + c6.len())[0] == '"');
    lemma_parse_key_at(s, p5, lit_name_task());
    lemma_parse_string_at(s, p6, t.task);
}

#[verifier::rlimit(100)]
#[verifier::spinoff_prover]
proof fn lemma_task_mid2(s: Seq<char>, q: int, t: TaskView)
    requires
        text_at(s, q, task_tail2(t)),
    ensures
        q < s.len() && s[q] == ',' && skip_ws(s, q) == q,
        skip_ws(s, q + 1) == q + 6,
        parse_key(s, q + 6, lit_name_completed()) == Some(q + 19),
        parse_bool(s, q + 19) == Some((t.completed, q + 19 + bool_chars(t.completed).len())),
        text_at(s, q + 19 + bool_chars(t.completed).len(), task_tail3(t)),
        task_tail2(t).len() == 19 + bool_chars(t.completed).len() + task_tail3(t).len(),
{
    let c7 = field_sep();
    let c8 = lit_name_completed() + seq![':', ' '];
    let c9 = bool_chars(t.completed);
    let r8 = c8 + (c9 + task_tail3(t));
    assert(task_tail2(t) == c7 + r8);
    lemma_text_split(s, q, c7, r8);
    let p8 = q + 6;
    lemma_text_split(s, p8, c8, c9 + task_tail3(t));
    let p9 = p8 + 13;
    lemma_text_split(s, p9, c9, task_tail3(t));
    let p10 = p9 + c9.len() as int;
    assert(s.subrange(q, q + 6)[0] == ',');
    assert(s[q] == ',');
    assert(s.subrange(q, q + 6)[1] == '\n');
    assert forall|m: int| q + 1 < m < q + 6 implies s[m] == ' ' by {
        assert(s.subrange(q, q + 6)[m - q] == c7[m - q]);
    }
    assert(s.subrange(p8, p8 + 13)[0] == c8[0]);
    assert(c8[0] == '"');
    lemma_skip_indent(s, q + 1, 4);
    assert(s.subrange(p9, p9 + c9.len())[0] == c9[0]);
    assert(!ws_char(c9[0]));
    lemma_parse_key_at(s, p8, lit_name_completed());
    lemma_parse_bool_at(s, p9, t.completed);
}

#[verifier::rlimit(100)]
#[verifier::spinoff_prover]
proof fn lemma_task_mid3(s: Seq<char>, q: int, t: TaskView)
    requires
        text_at(s, q, task_tail3(t)),
        t.dates_valid(),
    ensures
        q < s.len() && s[q] == ',' && skip_ws(s, q) == q,
        skip_ws(s, q + 1) == q + 6,
        parse_key(s, q + 6, lit_name_due_date()) == Some(q + 18),
        parse_due(s, q + 18) == Some((t.due_date, q + 18 + due_chars(t.due_date).len())),
        ({
            let p13 = q + 18 + due_chars(t.due_date).len() as int;
            skip_ws(s, p13) == p13 + 3 && p13 + 3 < s.len() && s[p13 + 3] == '}' && task_tail3(
                t,
            ).len() == 22 + due_chars(t.due_date).len()
        }),
{
    let c10 = field_sep();
    let c11 = lit_name_due_date() + seq![':', ' '];
    let c12 = due_chars(t.due_date);
    let c13 = seq!['\n', ' ', ' ', '}'];
    let r11 = c11 + (c12 + c13);
    assert(task_tail3(t) == c10 + r11);
    lemma_text_split(s, q, c10, r11);
    let p11 = q + 6;
    lemma_text_split(s, p11, c11, c12 + c13);
    let p12 = p11 + 12;
    lemma_text_split(s, p12, c12, c13);
    let p13 = p12 + c12.len() as int;
    assert(s.subrange(q, q + 6)[0] == ',');
    assert(s[q] == ',');
    assert(s.subrange(q, q + 6)[1] == '\n');
    assert forall|m: int| q + 1 < m < q + 6 implies s[m] == ' ' by {
        assert(s.subrange(q, q + 6)[m - q] == c10[m - q]);
    }
    assert(s.subrange(p11, p11 + 12)[0] == c11[0]);
    assert(c11[0] == '"');
    lemma_skip_indent(s, q + 1, 4);
    assert(s.subrange(p12, p12 + c12.len())[0] == c12[0]);
    assert(!ws_char(c12[0]));
    lemma_parse_key_at(s, p11, lit_name_due_date());
    lemma_parse_due_at(s, p12, t.due_date);
    assert(s.subrange(p13, p13 + 4)[0] == '\n');
    assert(s.subrange(p13, p13 + 4)[1] == ' ');
    assert(s.subrange(p13, p13 + 4)[2] == ' ');
    assert(s.subrange(p13, p13 + 4)[3] == '}');
    lemma_skip_indent(s, p13, 2);
}

#[verifier::rlimit(100)]
#[verifier::spinoff_prover]
proof fn lemma_parse_task_at(s: Seq<char>, i: int, t: TaskView)
    requires
        text_at(s, i, encode_task(t)),
        t.id < u64::MAX,
        t.dates_valid(),
    ensures
        parse_task(s, i) == Some((t, i + encode_task(t).len())),
{
    lemma_task_front(s, i, t);
    let p4 = i + 12 + dec_digits(t.id as int).len() as int;
    lemma_task_mid1(s, p4, t);
    let p7 = p4 + 14 + quoted(t.task).len() as int;
    lemma_task_mid2(s, p7, t);
    let p10 = p7 + 19 + bool_chars(t.completed).len() as int;
    lemma_task_mid3(s, p10, t);
    let p13 = p10 + 18 + due_chars(t.due_date).len() as int;
    assert(TaskView { id: t.id, task: t.task, completed: t.completed, due_date: t.due_date }
        == t);
    assert(p13 + 4 == i + encode_task(t).len());
}

#[verifier::rlimit(100)]
proof fn lemma_parse_items_of_tail(
    s: Seq<char>,
    i: int,
    ts: Seq<TaskView>,
    k: int,
    acc: Seq<TaskView>,
)
    requires
        0 <= k <= ts.len(),
        text_at(s, i, entries_from(ts, k)),
        i + entries_from(ts, k).len() == s.len(),
        forall|m: int|
            k <= m < ts.len() ==> (#[trigger] ts[m]).id < u64::MAX && ts[m].dates_valid(),
    ensures
        parse_items(s, i, acc) == Some((acc + ts.subrange(k, ts.len() as int), s.len() as int)),
    decreases ts.len() - k,
{
    if k == ts.len() {
        assert(s.subrange(i, i + 2)[0] == '\n');
        assert(s.subrange(i, i + 2)[1] == ']');
        lemma_skip_ws_run(s, i, 1);
        assert(skip_ws(s, i) == i + 1 && s[i + 1] == ']');
        assert(acc + ts.subrange(k, ts.len() as int) =~= acc);
    } else {
        let e1 = seq![',', '\n', ' ', ' '];
        let rest = entries_from(ts, k + 1);
        assert(entries_from(ts, k) == e1 + (encode_task(ts[k]) + rest));
        lemma_text_split(s, i, e1, encode_task(ts[k]) + rest);
        lemma_text_split(s, i + 4, encode_task(ts[k]), rest);
        assert(s.subrange(i, i + 4)[0] == ',');
        assert(s.subrange(i, i + 4)[1] == '\n');
        assert(s.subrange(i, i + 4)[2] == ' ');
        assert(s.subrange(i, i + 4)[3] == ' ');
        assert(s.subrange(i + 4, i + 4 + encode_task(ts[k]).len() as int)[0] == encode_task(
            ts[k],
        )[0]);
        assert(encode_task(ts[k])[0] == '{');
        assert(skip_ws(s, i) == i && s[i] == ',');
        lemma_skip_indent(s, i + 1, 2);
        assert(skip_ws(s, i + 1) == i + 4 && s[i + 4] == '{');
        lemma_parse_task_at(s, i + 4, ts[k]);
        let p = i + 4 + encode_task(ts[k]).len() as int;
        assert(parse_task(s, skip_ws(s, i + 1)) == Some((ts[k], p)));
        lemma_parse_items_of_tail(s, p, ts, k + 1, acc.push(ts[k]));
        assert(acc.push(ts[k]) + ts.subrange(k + 1, ts.len() as int) =~= acc + ts.subrange(
            k,
            ts.len() as int,
        ));
    }
}

/// Law: reading back the exact text the encoder wrote gives the same
/// tasks, so saving and loading round-trips (the next id is recomputed
/// by the loader, not stored).
#[verifier::rlimit(100)]
#[verifier::spinoff_prover]
#[verifier::rlimit(100)]
#[verifier::spinoff_prover]
proof fn lemma_parse_of_encode_front(ts: Seq<TaskView>)
    requires
        ts.len() > 0,
        ts[0].id < u64::MAX,
        ts[0].dates_valid(),
    ensures
        ({
            let s = encode_doc(ts);
            let p = 4 + encode_task(ts[0]).len() as int;
            &&& s.len() > 4
            &&& skip_ws(s, 0) == 0 && s[0] == '['
            &&& skip_ws(s, 1) == 4 && s[4] == '{'
            &&& parse_task(s, 4) == Some((ts[0], p))
            &&& text_at(s, p, entries_from(ts, 1))
            &&& p + entries_from(ts, 1).len() == s.len()
        }),
{
    let s = encode_doc(ts);
    let head = seq!['[', '\n', ' ', ' '];
    let rest = entries_from(ts, 1);
    assert(s == head + (encode_task(ts[0]) + rest));
    assert(text_at(s, 0, s)) by {
        assert(s.subrange(0, s.len() as int) =~= s);
    }
    lemma_text_split(s, 0, head, encode_task(ts[0]) + rest);
    lemma_text_split(s, 4, encode_task(ts[0]), rest);
    assert(s.subrange(0, 4)[0] == '[');
    assert(s.subrange(0, 4)[1] == '\n');
    assert(s.subrange(0, 4)[2] == ' ');
    assert(s.subrange(0, 4)[3] == ' ');
    assert(s.subrange(4, 4 + encode_task(ts[0]).len() as int)[0] == encode_task(ts[0])[0]);
    assert(encode_task(ts[0])[0] == '{');
    assert(skip_ws(s, 0) == 0 && s[0] == '[');
    lemma_skip_indent(s, 1, 2);
    assert(skip_ws(s, 1) == 4 && s[4] == '{');
    lemma_parse_task_at(s, 4, ts[0]);
}

#[verifier::rlimit(100)]
#[verifier::spinoff_prover]
pub proof fn lemma_parse_of_encode(ts: Seq<TaskView>)
    requires
        forall|m: int|
            0 <= m < ts.len() ==> (#[trigger] ts[m]).id < u64::MAX && ts[m].dates_valid(),
    ensures
        parse_doc(encode_doc(ts)) == Some(ts),
{
    let s = encode_doc(ts);
    if ts.len() == 0 {
        assert(s == seq!['[', ']']);
        lemma_skip_ws_run(s, 0, 0);
        lemma_skip_ws_run(s, 1, 0);
        assert(skip_ws(s, 2) == 2);
        assert(parse_doc(s) == Some(Seq::<TaskView>::empty()));
        assert(Seq::<TaskView>::empty() =~= ts);
    } else {
        lemma_parse_of_encode_front(ts);
        let p = 4 + encode_task(ts[0]).len() as int;
        lemma_parse_items_of_tail(s, p, ts, 1, seq![ts[0]]);
        assert(seq![ts[0]] + ts.subrange(1, ts.len() as int) =~= ts);
        assert(skip_ws(s, s.len() as int) == s.len());
    }
}

/// Every task a text parses to has a representable successor id and a
/// real calendar due date, when it has one.
proof fn lemma_parse_task_props(s: Seq<char>, i: int)
    ensures
        parse_task(s, i) matches Some((t, j)) ==> t.id < u64::MAX && t.dates_valid(),
{
}

proof fn lemma_parse_items_props(s: Seq<char>, i: int, acc: Seq<TaskView>)
    requires
        forall|m: int|
            0 <= m < acc.len() ==> (#[trigger] acc[m]).id < u64::MAX && acc[m].dates_valid(),
    ensures
        parse_items(s, i, acc) matches Some((ts, j)) ==> forall|m: int|
            0 <= m < ts.len() ==> (#[trigger] ts[m]).id < u64::MAX && ts[m].dates_valid(),
    decreases s.len() - i,
{
    let j = skip_ws(s, i);
    if 0 <= j < s.len() && s[j] != ']' && s[j] == ',' {
        let k = skip_ws(s, j + 1);
        match parse_task(s, k) {
            None => {},
            Some((t, i2)) => {
                if i2 > i && i2 <= s.len() {
                    lemma_parse_task_props(s, k);
                    lemma_parse_items_props(s, i2, acc.push(t));
                }
            },
        }
    }
}

/// Whatever text a whole document parse accepts, the tasks it yields
/// have representable successor ids and real calendar due dates.
pub proof fn lemma_parse_doc_props(s: Seq<char>)
    ensures
        parse_doc(s) matches Some(ts) ==> forall|m: int|
            0 <= m < ts.len() ==> (#[trigger] ts[m]).id < u64::MAX && ts[m].dates_valid(),
{
    let i = skip_ws(s, 0);
    if 0 <= i < s.len() && s[i] == '[' {
        let j = skip_ws(s, i + 1);
        if !(0 <= j < s.len() && s[j] == ']') {
            match parse_task(s, j) {
                None => {},
                Some((t, i2)) => {
                    lemma_parse_task_props(s, j);
                    lemma_parse_items_props(s, i2, seq![t]);
                },
            }
        }
    }
}

proof fn lemma_parse_bool_at(s: Seq<char>, i: int, b: bool)
    requires
        text_at(s, i, bool_chars(b)),
    ensures
        parse_bool(s, i) == Some((b, i + bool_chars(b).len())),
{
    if b {
        assert(s.subrange(i, i + 4)[0] == 't');
        assert(s[i] == 't');
        assert(parse_lit(s, i, lit_true()) == Some(i + 4));
    } else {
        assert(s.subrange(i, i + 5)[0] == 'f');
        assert(s[i] == 'f');
        assert(s[i] != 't');
        assert(parse_lit(s, i, lit_false()) == Some(i + 5));
    }
}

} // verus!
