//! Turning an alias and its forwarded arguments into a process invocation,
//! and the recursion guard carried between nested alias runs.

use vstd::prelude::*;

use crate::alias::{Alias, Shell};
use crate::error::{NaliasError, Result};
use crate::text::{
    CharClass, ascii_lower, chars_of, contains_class, decimal, has_class, is_white_space, join,
    join_strings, push_decimal, replace_all, replace_char, split_char, split_on, views,
};
use crate::alias::canonical_name;
use crate::text::{
    lemma_ascii_lower_idempotent, lemma_ascii_lower_keeps, lemma_split_join, lemma_split_pieces_plain,
};

verus! {

/// Environment variable holding the chain of aliases being run.
pub const STACK_ENV: &'static str = "NALIAS_ALIAS_STACK";

/// Deepest chain of nested alias runs.
pub const MAX_NESTING: usize = 32;

/// `n` backslashes.
pub open spec fn backslashes(n: nat) -> Seq<char> {
    Seq::new(n, |i: int| '\\')
}

/// The number of backslashes directly before position `i` of `s`.
pub open spec fn run_before(s: Seq<char>, i: int) -> nat
    decreases i,
{
    if 0 < i <= s.len() && s[i - 1] == '\\' {
        1 + run_before(s, i - 1)
    } else {
        0
    }
}

/// What the CMD quoting writes for the character at position `i` of `s`:
/// a quote is doubled and the backslashes before it are doubled too, and a
/// percent sign is doubled.
pub open spec fn cmd_piece(s: Seq<char>, i: int) -> Seq<char> {
    if s[i] == '\\' {
        seq!['\\']
    } else if s[i] == '"' {
        backslashes(run_before(s, i)) + seq!['"', '"']
    } else if s[i] == '%' {
        seq!['%', '%']
    } else {
        seq![s[i]]
    }
}

/// The pieces written for the first `n` characters of `s`.
pub open spec fn cmd_body(s: Seq<char>, n: int) -> Seq<char>
    decreases n,
{
    if n <= 0 {
        Seq::<char>::empty()
    } else {
        cmd_body(s, n - 1) + cmd_piece(s, n - 1)
    }
}

/// A forwarded value quoted for CMD: the pieces inside double quotes, with the
/// trailing backslashes doubled so that they do not escape the closing quote.
pub open spec fn quote_cmd(s: Seq<char>) -> Seq<char> {
    seq!['"'] + cmd_body(s, s.len() as int) + backslashes(run_before(s, s.len() as int)) + seq!['"']
}

/// Appends `n` backslashes to `s`.
fn push_backslashes(s: &mut String, n: usize)
    ensures
        final(s)@ == old(s)@ + backslashes(n as nat),
{
    let mut k: usize = 0;
    while k < n
        invariant
            k <= n,
            s@ == old(s)@ + backslashes(k as nat),
        decreases n - k,
    {
        s.push('\\');
        k = k + 1;
        assert(s@ =~= old(s)@ + backslashes(k as nat));
    }
}

/// Quotes a forwarded value for logical display and tests. Actual CMD execution
/// uses delayed-expansion placeholders because no early-expansion quoting scheme
/// can safely represent every listed metacharacter.
pub fn quote_cmd_argument(value: &str) -> (r: String)
    ensures
        r@ == quote_cmd(value@),
{
    let v = chars_of(value);
    let mut result = String::new();
    result.push('"');
    let mut trailing: usize = 0;
    let mut i: usize = 0;
    while i < v.len()
        invariant
            i <= v.len(),
            v@ == value@,
            trailing <= i,
            trailing == run_before(value@, i as int),
            result@ == seq!['"'] + cmd_body(value@, i as int),
        decreases v.len() - i,
    {
        let ch = v[i];
        let ghost before = result@;
        if ch == '\\' {
            trailing = trailing + 1;
            result.push('\\');
        } else if ch == '"' {
            push_backslashes(&mut result, trailing);
            trailing = 0;
            result.push('"');
            result.push('"');
        } else if ch == '%' {
            trailing = 0;
            result.push('%');
            result.push('%');
        } else {
            trailing = 0;
            result.push(ch);
        }
        assert(result@ =~= before + cmd_piece(value@, i as int));
        i = i + 1;
    }
    push_backslashes(&mut result, trailing);
    result.push('"');
    assert(result@ =~= quote_cmd(value@));
    result
}

/// The state of the Microsoft C command-line parser after some characters.
pub struct SplitState {
    pub done: Seq<Seq<char>>,
    pub cur: Seq<char>,
    pub in_word: bool,
    pub quoted: bool,
    pub pending: nat,
}

pub open spec fn split_start() -> SplitState {
    SplitState {
        done: Seq::empty(),
        cur: Seq::empty(),
        in_word: false,
        quoted: false,
        pending: 0,
    }
}

/// One character of the Microsoft C command-line rules: backslashes are held
/// until the next character; before a quote, each pair becomes one backslash
/// and an odd one escapes the quote, while an unescaped quote toggles quoting;
/// unquoted white space ends a word.
pub open spec fn split_step(st: SplitState, c: char) -> SplitState {
    if c == '\\' {
        SplitState { in_word: true, pending: st.pending + 1, ..st }
    } else if c == '"' {
        let cur = st.cur + backslashes(st.pending / 2);
        if st.pending % 2 == 0 {
            SplitState { cur, in_word: true, quoted: !st.quoted, pending: 0, ..st }
        } else {
            SplitState { cur: cur.push('"'), in_word: true, pending: 0, ..st }
        }
    } else if is_white_space(c) && !st.quoted {
        let cur = st.cur + backslashes(st.pending);
        if st.in_word {
            SplitState {
                done: st.done.push(cur),
                cur: Seq::empty(),
                in_word: false,
                quoted: false,
                pending: 0,
            }
        } else {
            SplitState { cur, pending: 0, ..st }
        }
    } else {
        SplitState {
            cur: (st.cur + backslashes(st.pending)).push(c),
            in_word: true,
            pending: 0,
            ..st
        }
    }
}

pub open spec fn split_fold(s: Seq<char>) -> SplitState
    decreases s.len(),
{
    if s.len() == 0 {
        split_start()
    } else {
        split_step(split_fold(s.drop_last()), s.last())
    }
}

/// The words of a command line under the Microsoft C rules, or `None` when a
/// quote is left open.
pub open spec fn split_windows(s: Seq<char>) -> Option<Seq<Seq<char>>> {
    let st = split_fold(s);
    if st.quoted {
        None
    } else if st.in_word {
        Some(st.done.push(st.cur + backslashes(st.pending)))
    } else {
        Some(st.done)
    }
}

/// Parses the stored direct command using the Microsoft C command-line rules.
pub fn split_windows_command_line(input: &str) -> (r: Result<Vec<String>>)
    ensures
        match r {
            Ok(words) => split_windows(input@) == Some(views(words@)),
            Err(e) => split_windows(input@) is None && (e matches NaliasError::Execution(m) && m@
                == "direct alias command contains an unterminated quote"@),
        },
{
    let chars = chars_of(input);
    let mut done: Vec<String> = Vec::new();
    let mut cur = String::new();
    let mut in_word = false;
    let mut quoted = false;
    let mut pending: usize = 0;
    let mut i: usize = 0;
    assert(input@.take(0) =~= Seq::<char>::empty());
    assert(views(done@) =~= Seq::<Seq<char>>::empty());
    while i < chars.len()
        invariant
            i <= chars.len(),
            chars@ == input@,
            pending <= i,
            split_fold(input@.take(i as int)) == (SplitState {
                done: views(done@),
                cur: cur@,
                in_word,
                quoted,
                pending: pending as nat,
            }),
        decreases chars.len() - i,
    {
        let c = chars[i];
        assert(input@.take(i + 1).drop_last() =~= input@.take(i as int));
        if c == '\\' {
            in_word = true;
            pending = pending + 1;
        } else if c == '"' {
            push_backslashes(&mut cur, pending / 2);
            if pending % 2 == 0 {
                quoted = !quoted;
            } else {
                cur.push('"');
            }
            in_word = true;
            pending = 0;
        } else if c.is_whitespace() && !quoted {
            push_backslashes(&mut cur, pending);
            pending = 0;
            if in_word {
                let ghost d0 = views(done@);
                let ghost w = cur@;
                done.push(cur);
                cur = String::new();
                in_word = false;
                assert(views(done@) =~= d0.push(w));
            }
        } else {
            push_backslashes(&mut cur, pending);
            cur.push(c);
            in_word = true;
            pending = 0;
        }
        i = i + 1;
    }
    assert(input@.take(chars.len() as int) =~= input@);
    if quoted {
        return Err(
            NaliasError::Execution("direct alias command contains an unterminated quote".to_owned()),
        );
    }
    if in_word {
        push_backslashes(&mut cur, pending);
        let ghost d0 = views(done@);
        let ghost w = cur@;
        done.push(cur);
        assert(views(done@) =~= d0.push(w));
    }
    Ok(done)
}


/// The words found so far by white-space splitting, and the word being read.
pub open spec fn blank_fold(s: Seq<char>) -> (Seq<Seq<char>>, Seq<char>)
    decreases s.len(),
{
    if s.len() == 0 {
        (Seq::empty(), Seq::empty())
    } else {
        let (done, cur) = blank_fold(s.drop_last());
        let c = s.last();
        if is_white_space(c) {
            if cur.len() > 0 {
                (done.push(cur), Seq::empty())
            } else {
                (done, cur)
            }
        } else {
            (done, cur.push(c))
        }
    }
}

/// The maximal runs of characters that are not white space (`str::split_whitespace`).
pub open spec fn blank_words(s: Seq<char>) -> Seq<Seq<char>> {
    let (done, cur) = blank_fold(s);
    if cur.len() > 0 {
        done.push(cur)
    } else {
        done
    }
}

proof fn lemma_unquoted_fold(s: Seq<char>)
    requires
        !s.contains('"'),
    ensures
        ({
            let st = split_fold(s);
            let (done, cur) = blank_fold(s);
            &&& !st.quoted
            &&& st.done == done
            &&& st.cur + backslashes(st.pending) == cur
            &&& st.in_word == (cur.len() > 0)
        }),
    decreases s.len(),
{
    if s.len() > 0 {
        let init = s.drop_last();
        assert(!init.contains('"')) by {
            if init.contains('"') {
                let j = choose|j: int| 0 <= j < init.len() && init[j] == '"';
                assert(s[j] == '"');
            }
        }
        lemma_unquoted_fold(init);
        let st = split_fold(init);
        let c = s.last();
        assert(c != '"') by {
            assert(s[s.len() - 1] == c);
        }
        assert(backslashes(0) =~= Seq::<char>::empty());
        assert(backslashes(st.pending + 1) =~= backslashes(st.pending).push('\\'));
        assert(st.cur + backslashes(st.pending + 1) =~= (st.cur + backslashes(st.pending)).push(
            '\\',
        ));
        assert(st.cur + backslashes(st.pending) + backslashes(0) =~= st.cur + backslashes(
            st.pending,
        ));
        assert((st.cur + backslashes(st.pending)).push(c) + backslashes(0) =~= (st.cur
            + backslashes(st.pending)).push(c));
        assert(Seq::<char>::empty() + backslashes(0) =~= Seq::<char>::empty());
    }
}

/// Without quotes, the command-line rules split at white space alone: each
/// word is a maximal run of other characters, backslashes kept as they are.
pub proof fn law_unquoted_split_is_blank_split(s: Seq<char>)
    requires
        !s.contains('"'),
    ensures
        split_windows(s) == Some(blank_words(s)),
{
    lemma_unquoted_fold(s);
}

/// Characters that neither quote nor escape.
pub open spec fn plain_text(p: Seq<char>) -> bool {
    !p.contains('"') && !p.contains('\\')
}

proof fn lemma_plain_run(x: Seq<char>, p: Seq<char>)
    requires
        plain_text(p),
        split_fold(x).pending == 0,
        split_fold(x).quoted || forall|i: int| 0 <= i < p.len() ==> !is_white_space(#[trigger] p[i]),
    ensures
        split_fold(x + p) == (SplitState {
            cur: split_fold(x).cur + p,
            in_word: split_fold(x).in_word || p.len() > 0,
            ..split_fold(x)
        }),
    decreases p.len(),
{
    let st = split_fold(x);
    if p.len() == 0 {
        assert(x + p =~= x);
        assert(st.cur + p =~= st.cur);
    } else {
        let q = p.drop_last();
        assert(plain_text(q)) by {
            if q.contains('"') {
                let j = choose|j: int| 0 <= j < q.len() && q[j] == '"';
                assert(p[j] == '"');
            }
            if q.contains('\\') {
                let j = choose|j: int| 0 <= j < q.len() && q[j] == '\\';
                assert(p[j] == '\\');
            }
        }
        if !st.quoted {
            assert forall|i: int| 0 <= i < q.len() implies !is_white_space(#[trigger] q[i]) by {
                assert(q[i] == p[i]);
            }
        }
        lemma_plain_run(x, q);
        assert((x + p).drop_last() =~= x + q);
        assert((x + p).last() == p.last());
        let c = p.last();
        assert(c != '"' && c != '\\') by {
            assert(p[p.len() - 1] == c);
        }
        if !st.quoted {
            assert(!is_white_space(p[p.len() - 1]));
        }
        assert(backslashes(0) =~= Seq::<char>::empty());
        assert((st.cur + q + backslashes(0)).push(c) =~= st.cur + p);
    }
}

/// Under the command-line rules a quote after an odd run of backslashes is a
/// literal quote and never opens or closes quoting: inside a quoted section,
/// `"a\"b"` is the one word `a"b`; outside quotes, `a\"b` is the one word
/// `a"b` (for texts `a` and `b` without quotes or backslashes, and outside
/// quotes without white space).
pub proof fn law_escaped_quote_is_literal(a: Seq<char>, b: Seq<char>)
    requires
        plain_text(a),
        plain_text(b),
    ensures
        split_windows(seq!['"'] + a + seq!['\\', '"'] + b + seq!['"']) == Some(
            seq![a + seq!['"'] + b],
        ),
        (forall|i: int| 0 <= i < a.len() ==> !is_white_space(#[trigger] a[i])) && (forall|i: int|
            0 <= i < b.len() ==> !is_white_space(#[trigger] b[i])) ==> split_windows(
            a + seq!['\\', '"'] + b,
        ) == Some(seq![a + seq!['"'] + b]),
{
    assert(backslashes(0) =~= Seq::<char>::empty());
    assert(backslashes(1) =~= seq!['\\']);
    // Inside quotes.
    let p0 = seq!['"'];
    assert(p0.drop_last() =~= Seq::<char>::empty());
    let s0 = split_fold(p0);
    assert(split_fold(Seq::<char>::empty()) == split_start());
    assert(p0.last() == '"');
    assert(Seq::<char>::empty() + backslashes(0) =~= Seq::<char>::empty());
    assert(s0.cur == Seq::<char>::empty() && s0.in_word && s0.quoted && s0.pending == 0
        && s0.done == Seq::<Seq<char>>::empty());
    lemma_plain_run(p0, a);
    let p1 = p0 + a;
    let p2 = p1.push('\\');
    assert(p2.drop_last() =~= p1);
    let p3 = p2.push('"');
    assert(p3.drop_last() =~= p2);
    assert(Seq::<char>::empty() + a =~= a);
    assert(split_fold(p1).cur == a);
    assert(p2.last() == '\\');
    assert(split_fold(p2).pending == 1 && split_fold(p2).cur == a && split_fold(p2).quoted);
    assert(p3.last() == '"');
    assert(split_fold(p3).cur == (a + backslashes(0)).push('"'));
    assert((a + backslashes(0)).push('"') =~= a + seq!['"']);
    lemma_plain_run(p3, b);
    let p4 = p3 + b;
    let p5 = p4.push('"');
    assert(p5.drop_last() =~= p4);
    assert(p5 =~= seq!['"'] + a + seq!['\\', '"'] + b + seq!['"']);
    assert(split_fold(p5).cur == a + seq!['"'] + b + backslashes(0));
    assert(a + seq!['"'] + b + backslashes(0) =~= a + seq!['"'] + b);
    assert(split_fold(p5).done == Seq::<Seq<char>>::empty());
    assert(Seq::<Seq<char>>::empty().push(a + seq!['"'] + b) =~= seq![a + seq!['"'] + b]);
    // Outside quotes.
    if (forall|i: int| 0 <= i < a.len() ==> !is_white_space(#[trigger] a[i])) && (forall|i: int|
        0 <= i < b.len() ==> !is_white_space(#[trigger] b[i])) {
        let e = Seq::<char>::empty();
        assert(split_fold(e) == split_start());
        lemma_plain_run(e, a);
        assert(e + a =~= a);
        let q2 = a.push('\\');
        assert(q2.drop_last() =~= a);
        let q3 = q2.push('"');
        assert(q3.drop_last() =~= q2);
        assert(Seq::<char>::empty() + a =~= a);
        assert(split_fold(a).cur == a && !split_fold(a).quoted && split_fold(a).pending == 0);
        assert(q2.last() == '\\');
        assert(split_fold(q2).pending == 1 && split_fold(q2).cur == a);
        assert(q3.last() == '"');
        assert(split_fold(q3).cur == (a + backslashes(0)).push('"'));
        lemma_plain_run(q3, b);
        assert(q3 + b =~= a + seq!['\\', '"'] + b);
        assert(split_fold(q3 + b).cur + backslashes(0) =~= a + seq!['"'] + b);
        assert(Seq::<Seq<char>>::empty().push(a + seq!['"'] + b) =~= seq![a + seq!['"'] + b]);
    }
}

/// How an alias runs: the program, its arguments, extra environment variables,
/// and the invocation as shown to the user.
#[derive(Debug, PartialEq, Eq)]
pub struct ExecutionPlan {
    pub program: String,
    pub arguments: Vec<String>,
    pub environment: Vec<(String, String)>,
    pub display: String,
}

/// The non-empty pieces of `pieces`, in ASCII lower case.
pub open spec fn lower_nonempty(pieces: Seq<Seq<char>>) -> Seq<Seq<char>>
    decreases pieces.len(),
{
    if pieces.len() == 0 {
        Seq::<Seq<char>>::empty()
    } else {
        let prev = lower_nonempty(pieces.drop_last());
        if pieces.last().len() == 0 {
            prev
        } else {
            prev.push(ascii_lower(pieces.last()))
        }
    }
}

/// The canonical alias names recorded in a stack value (`;`-separated).
pub open spec fn stack_entries(current: Seq<char>) -> Seq<Seq<char>> {
    lower_nonempty(split_on(current, ';'))
}

/// The position of the first `x` in `s` (or `s.len()` when there is none).
pub open spec fn first_index(s: Seq<Seq<char>>, x: Seq<char>) -> int
    decreases s.len(),
{
    if s.len() == 0 {
        0
    } else if s[0] == x {
        0
    } else {
        1 + first_index(s.drop_first(), x)
    }
}

proof fn lemma_first_index(s: Seq<Seq<char>>, x: Seq<char>, p: int)
    requires
        0 <= p < s.len(),
        s[p] == x,
        forall|j: int| 0 <= j < p ==> s[j] != x,
    ensures
        first_index(s, x) == p,
    decreases p,
{
    if p > 0 {
        lemma_first_index(s.drop_first(), x, p - 1);
    }
}

pub open spec fn opt_text(current: Option<&str>) -> Seq<char> {
    match current {
        Some(c) => c@,
        None => Seq::<char>::empty(),
    }
}

pub open spec fn nesting_message() -> Seq<char> {
    "maximum nesting depth of 32 was exceeded"@
}

/// What `updated_stack` answers for alias `name` run under the stack `current`.
pub open spec fn stack_outcome(name: Seq<char>, current: Seq<char>) -> std::result::Result<
    Seq<char>,
    Seq<char>,
> {
    let canonical = ascii_lower(name);
    let entries = stack_entries(current);
    if entries.contains(canonical) {
        Err(join(entries.skip(first_index(entries, canonical)).push(canonical), " -> "@))
    } else if entries.len() >= 32 {
        Err(nesting_message())
    } else {
        Ok(join(entries.push(canonical), ";"@))
    }
}

/// Adds alias `name` to the run stack `current`, refusing a name already on it
/// (recursion) and a stack already `MAX_NESTING` deep.
pub fn updated_stack(name: &str, current: Option<&str>) -> (r: Result<String>)
    ensures
        match stack_outcome(name@, opt_text(current)) {
            Ok(s) => r matches Ok(t) && t@ == s,
            Err(m) => r matches Err(NaliasError::Recursion(t)) && t@ == m,
        },
{
    let canonical = canonical_name(name);
    let text: &str = match current {
        Some(c) => c,
        None => "",
    };
    proof {
        reveal_strlit("");
    }
    assert(text@ == opt_text(current));
    let pieces = split_char(text, ';');
    let mut stack: Vec<String> = Vec::new();
    let mut i: usize = 0;
    assert(views(pieces@).take(0) =~= Seq::<Seq<char>>::empty());
    assert(views(stack@) =~= Seq::<Seq<char>>::empty());
    while i < pieces.len()
        invariant
            i <= pieces.len(),
            views(stack@) == lower_nonempty(views(pieces@).take(i as int)),
        decreases pieces.len() - i,
    {
        assert(views(pieces@).take(i + 1).drop_last() =~= views(pieces@).take(i as int));
        if !pieces[i].as_str().is_empty() {
            let ghost before = views(stack@);
            let lowered = canonical_name(pieces[i].as_str());
            stack.push(lowered);
            assert(views(stack@) =~= before.push(ascii_lower(pieces@[i as int]@)));
        }
        i = i + 1;
    }
    assert(views(pieces@).take(pieces.len() as int) =~= views(pieces@));
    let ghost entries = views(stack@);
    assert(entries == stack_entries(text@));
    let mut p: usize = 0;
    while p < stack.len()
        invariant
            p <= stack.len(),
            entries == views(stack@),
            entries == stack_entries(opt_text(current)),
            canonical@ == ascii_lower(name@),
            forall|j: int| 0 <= j < p ==> entries[j] != canonical@,
        decreases stack.len() - p,
    {
        if stack[p] == canonical {
            proof {
                lemma_first_index(entries, canonical@, p as int);
            }
            assert(entries[p as int] == canonical@);
            let mut cycle: Vec<String> = Vec::new();
            let mut k: usize = p;
            assert(views(cycle@) =~= entries.skip(p as int).take(0));
            while k < stack.len()
                invariant
                    p <= k <= stack.len(),
                    entries == views(stack@),
                    entries == stack_entries(opt_text(current)),
                    canonical@ == ascii_lower(name@),
                    entries[p as int] == canonical@,
                    first_index(entries, canonical@) == p,
                    views(cycle@) == entries.skip(p as int).take(k - p),
                decreases stack.len() - k,
            {
                let ghost before = views(cycle@);
                let item = stack[k].clone();
                assert(item@ == entries[k as int]);
                cycle.push(item);
                assert(views(cycle@) =~= before.push(entries[k as int]));
                assert(entries.skip(p as int).take(k + 1 - p) =~= entries.skip(p as int).take(
                    k - p,
                ).push(entries[k as int]));
                k = k + 1;
            }
            assert(entries.skip(p as int).take(stack.len() - p) =~= entries.skip(p as int));
            let ghost before = views(cycle@);
            let ghost cv = canonical@;
            cycle.push(canonical);
            assert(views(cycle@) =~= before.push(cv));
            assert(entries.contains(cv));
            return Err(NaliasError::Recursion(join_strings(&cycle, " -> ")));
        }
        p = p + 1;
    }
    assert(!entries.contains(canonical@));
    if stack.len() >= MAX_NESTING {
        return Err(NaliasError::Recursion("maximum nesting depth of 32 was exceeded".to_owned()));
    }
    let ghost before = views(stack@);
    let ghost cv = canonical@;
    stack.push(canonical);
    assert(views(stack@) =~= before.push(cv));
    Ok(join_strings(&stack, ";"))
}

/// The name of the environment variable carrying forwarded value `i`.
pub open spec fn forwarded_var(i: nat) -> Seq<char> {
    "NALIAS__FORWARDED_"@ + decimal(i)
}

/// `command` followed by a delayed-expansion placeholder for each of `n` values.
pub open spec fn cmd_line(command: Seq<char>, n: nat) -> Seq<char>
    decreases n,
{
    if n == 0 {
        command
    } else {
        cmd_line(command, (n - 1) as nat) + " \"!"@ + forwarded_var((n - 1) as nat) + "!\""@
    }
}

/// Builds the actual CMD invocation. Forwarded data is carried in environment
/// variables and expanded with delayed expansion. CMD recognizes metacharacters
/// before this late expansion, so argument data cannot become shell syntax.
pub fn cmd_invocation(command: &str, arguments: &[String]) -> (r: (String, Vec<(String, String)>))
    ensures
        r.0@ == cmd_line(command@, arguments@.len() as nat),
        r.1@.len() == arguments@.len(),
        forall|i: int|
            0 <= i < arguments@.len() ==> (#[trigger] r.1@[i]).0@ == forwarded_var(i as nat)
                && r.1@[i].1@ == arguments@[i]@,
{
    let mut command_line = command.to_owned();
    let mut environment: Vec<(String, String)> = Vec::new();
    let mut index: usize = 0;
    while index < arguments.len()
        invariant
            index <= arguments@.len(),
            command_line@ == cmd_line(command@, index as nat),
            environment@.len() == index,
            forall|i: int|
                0 <= i < index ==> (#[trigger] environment@[i]).0@ == forwarded_var(i as nat)
                    && environment@[i].1@ == arguments@[i]@,
        decreases arguments@.len() - index,
    {
        let mut name = "NALIAS__FORWARDED_".to_owned();
        push_decimal(&mut name, index);
        command_line.append(" \"!");
        command_line.append(name.as_str());
        command_line.append("!\"");
        environment.push((name, arguments[index].clone()));
        index = index + 1;
    }
    (command_line, environment)
}

/// `command` followed by each value quoted for CMD.
pub open spec fn append_cmd(command: Seq<char>, args: Seq<Seq<char>>) -> Seq<char>
    decreases args.len(),
{
    if args.len() == 0 {
        command
    } else {
        append_cmd(command, args.drop_last()) + " "@ + quote_cmd(args.last())
    }
}

pub fn append_cmd_arguments(command: &str, arguments: &[String]) -> (r: String)
    ensures
        r@ == append_cmd(command@, views(arguments@)),
{
    let mut result = command.to_owned();
    let mut i: usize = 0;
    assert(views(arguments@).take(0) =~= Seq::<Seq<char>>::empty());
    while i < arguments.len()
        invariant
            i <= arguments@.len(),
            result@ == append_cmd(command@, views(arguments@).take(i as int)),
        decreases arguments@.len() - i,
    {
        assert(views(arguments@).take(i + 1).drop_last() =~= views(arguments@).take(i as int));
        result.append(" ");
        let quoted = quote_cmd_argument(arguments[i].as_str());
        result.append(quoted.as_str());
        i = i + 1;
    }
    assert(views(arguments@).take(arguments@.len() as int) =~= views(arguments@));
    result
}

/// A value as a PowerShell single-quoted literal.
pub open spec fn quote_powershell(v: Seq<char>) -> Seq<char> {
    "'"@ + replace_char(v, '\'', "''"@) + "'"@
}

/// `command` followed by each value as a PowerShell literal.
pub open spec fn append_powershell(command: Seq<char>, args: Seq<Seq<char>>) -> Seq<char>
    decreases args.len(),
{
    if args.len() == 0 {
        command
    } else {
        append_powershell(command, args.drop_last()) + " "@ + quote_powershell(args.last())
    }
}

pub fn append_powershell_arguments(command: &str, arguments: &[String]) -> (r: String)
    ensures
        r@ == append_powershell(command@, views(arguments@)),
{
    let mut result = command.to_owned();
    let mut i: usize = 0;
    assert(views(arguments@).take(0) =~= Seq::<Seq<char>>::empty());
    while i < arguments.len()
        invariant
            i <= arguments@.len(),
            result@ == append_powershell(command@, views(arguments@).take(i as int)),
        decreases arguments@.len() - i,
    {
        assert(views(arguments@).take(i + 1).drop_last() =~= views(arguments@).take(i as int));
        result.append(" ");
        result.append("'");
        let escaped = replace_all(arguments[i].as_str(), '\'', "''");
        result.append(escaped.as_str());
        result.append("'");
        i = i + 1;
    }
    assert(views(arguments@).take(arguments@.len() as int) =~= views(arguments@));
    result
}

/// A word as shown in a direct invocation: quoted when empty or holding white space.
pub open spec fn quote_display(v: Seq<char>) -> Seq<char> {
    if v.len() == 0 || has_class(v, CharClass::WhiteSpace) {
        "\""@ + replace_char(v, '"', "\\\""@) + "\""@
    } else {
        v
    }
}

pub fn quote_for_display(value: &str) -> (r: String)
    ensures
        r@ == quote_display(value@),
{
    if value.is_empty() || contains_class(value, &CharClass::WhiteSpace) {
        let mut r = "\"".to_owned();
        let escaped = replace_all(value, '"', "\\\"");
        r.append(escaped.as_str());
        r.append("\"");
        r
    } else {
        value.to_owned()
    }
}


/// The words of a direct invocation as displayed.
pub open spec fn display_words(words: Seq<Seq<char>>) -> Seq<Seq<char>> {
    words.map_values(|w: Seq<char>| quote_display(w))
}

/// `environment` carries forwarded value `i` in variable `forwarded_var(i)`.
pub open spec fn forwards_through(environment: Seq<(String, String)>, forwarded: Seq<String>) -> bool {
    &&& environment.len() == forwarded.len()
    &&& forall|i: int|
        0 <= i < forwarded.len() ==> (#[trigger] environment[i]).0@ == forwarded_var(i as nat)
            && environment[i].1@ == forwarded[i]@
}

pub open spec fn unterminated_quote() -> Seq<char> {
    "direct alias command contains an unterminated quote"@
}

pub open spec fn no_program() -> Seq<char> {
    "direct alias command does not contain a program"@
}

/// What `plan` returns for an alias with command `command` run by `shell`.
pub open spec fn plan_matches(
    shell: Shell,
    command: Seq<char>,
    forwarded: Seq<String>,
    r: Result<ExecutionPlan>,
) -> bool {
    match shell {
        Shell::Cmd => r matches Ok(p) && {
            &&& p.program@ == "cmd.exe"@
            &&& views(p.arguments@) == seq![
                "/D"@,
                "/S"@,
                "/V:ON"@,
                "/C"@,
                cmd_line(command, forwarded.len()),
            ]
            &&& forwards_through(p.environment@, forwarded)
            &&& p.display@ == "cmd.exe /D /S /V:ON /C "@ + append_cmd(command, views(forwarded))
        },
        Shell::Powershell => r matches Ok(p) && {
            let line = append_powershell(command, views(forwarded));
            &&& p.program@ == "powershell.exe"@
            &&& views(p.arguments@) == seq!["-NoLogo"@, "-NoProfile"@, "-Command"@, line]
            &&& p.environment@.len() == 0
            &&& p.display@ == "powershell.exe -NoLogo -NoProfile -Command "@ + line
        },
        Shell::Direct => match split_windows(command) {
            None => r matches Err(NaliasError::Execution(m)) && m@ == unterminated_quote(),
            Some(words) => if words.len() == 0 {
                r matches Err(NaliasError::Execution(m)) && m@ == no_program()
            } else {
                r matches Ok(p) && {
                    &&& p.program@ == words[0]
                    &&& views(p.arguments@) == words.drop_first() + views(forwarded)
                    &&& p.environment@.len() == 0
                    &&& p.display@ == join(display_words(words + views(forwarded)), " "@)
                }
            },
        },
    }
}

/// Resolves how `alias` runs with the forwarded arguments.
pub fn plan(alias: &Alias, forwarded: &[String]) -> (r: Result<ExecutionPlan>)
    ensures
        plan_matches(alias.shell, alias.command@, forwarded@, r),
{
    match alias.shell {
        Shell::Cmd => {
            let (command_line, environment) = cmd_invocation(alias.command.as_str(), forwarded);
            let logical = append_cmd_arguments(alias.command.as_str(), forwarded);
            let mut display = "cmd.exe /D /S /V:ON /C ".to_owned();
            display.append(logical.as_str());
            let arguments = vec![
                "/D".to_owned(),
                "/S".to_owned(),
                "/V:ON".to_owned(),
                "/C".to_owned(),
                command_line,
            ];
            assert(views(arguments@) =~= seq![
                "/D"@,
                "/S"@,
                "/V:ON"@,
                "/C"@,
                cmd_line(alias.command@, forwarded@.len()),
            ]);
            Ok(ExecutionPlan { program: "cmd.exe".to_owned(), arguments, environment, display })
        },
        Shell::Powershell => {
            let command_line = append_powershell_arguments(alias.command.as_str(), forwarded);
            let mut display = "powershell.exe -NoLogo -NoProfile -Command ".to_owned();
            display.append(command_line.as_str());
            let arguments = vec![
                "-NoLogo".to_owned(),
                "-NoProfile".to_owned(),
                "-Command".to_owned(),
                command_line,
            ];
            let ghost line = append_powershell(alias.command@, views(forwarded@));
            assert(views(arguments@) =~= seq!["-NoLogo"@, "-NoProfile"@, "-Command"@, line]);
            Ok(
                ExecutionPlan {
                    program: "powershell.exe".to_owned(),
                    arguments,
                    environment: Vec::new(),
                    display,
                },
            )
        },
        Shell::Direct => {
            let mut words = split_windows_command_line(alias.command.as_str())?;
            if words.len() == 0 {
                return Err(
                    NaliasError::Execution(
                        "direct alias command does not contain a program".to_owned(),
                    ),
                );
            }
            let ghost w = views(words@);
            let program = words.remove(0);
            assert(views(words@) =~= w.drop_first());
            let mut i: usize = 0;
            while i < forwarded.len()
                invariant
                    i <= forwarded@.len(),
                    views(words@) == w.drop_first() + views(forwarded@).take(i as int),
                decreases forwarded@.len() - i,
            {
                let ghost before = views(words@);
                let item = forwarded[i].clone();
                words.push(item);
                assert(views(words@) =~= before.push(forwarded@[i as int]@));
                assert(views(forwarded@).take(i + 1) =~= views(forwarded@).take(i as int).push(
                    forwarded@[i as int]@,
                ));
                i = i + 1;
            }
            assert(views(forwarded@).take(forwarded@.len() as int) =~= views(forwarded@));
            let ghost all = w + views(forwarded@);
            assert(views(words@).len() == words@.len());
            let mut shown: Vec<String> = Vec::new();
            shown.push(quote_for_display(program.as_str()));
            let mut j: usize = 0;
            while j < words.len()
                invariant
                    j <= words.len(),
                    program@ == w[0],
                    w.len() > 0,
                    all == w + views(forwarded@),
                    views(words@) == all.drop_first(),
                    all.len() == words@.len() + 1,
                    views(shown@) == display_words(all).take(j + 1),
                decreases words.len() - j,
            {
                let ghost before = views(shown@);
                let q = quote_for_display(words[j].as_str());
                assert(views(words@)[j as int] == words@[j as int]@);
                assert(all.drop_first()[j as int] == all[j + 1]);
                assert(words@[j as int]@ == all[j + 1]);
                assert(q@ == display_words(all)[j + 1]);
                shown.push(q);
                assert(views(shown@) =~= before.push(display_words(all)[j + 1]));
                assert(display_words(all).take(j + 2) =~= display_words(all).take(j + 1).push(
                    display_words(all)[j + 1],
                ));
                j = j + 1;
            }
            assert(display_words(all).take(words.len() + 1) =~= display_words(all));
            let display = join_strings(&shown, " ");
            Ok(ExecutionPlan { program, arguments: words, environment: Vec::new(), display })
        },
    }
}


/// The canonical names kept from pieces without `;` are non-empty, lower
/// case, and without `;`.
proof fn lemma_lower_nonempty_plain(pieces: Seq<Seq<char>>)
    requires
        forall|i: int| 0 <= i < pieces.len() ==> !(#[trigger] pieces[i]).contains(';'),
    ensures
        forall|i: int|
            0 <= i < lower_nonempty(pieces).len() ==> {
                &&& (#[trigger] lower_nonempty(pieces)[i]).len() > 0
                &&& ascii_lower(lower_nonempty(pieces)[i]) == lower_nonempty(pieces)[i]
                &&& !lower_nonempty(pieces)[i].contains(';')
            },
    decreases pieces.len(),
{
    if pieces.len() > 0 {
        let init = pieces.drop_last();
        assert forall|i: int| 0 <= i < init.len() implies !(#[trigger] init[i]).contains(';') by {
            assert(init[i] == pieces[i]);
        }
        lemma_lower_nonempty_plain(init);
        let last = pieces.last();
        if last.len() > 0 {
            lemma_ascii_lower_idempotent(last);
            assert(!pieces[pieces.len() - 1].contains(';'));
            lemma_ascii_lower_keeps(last, ';');
            let prev = lower_nonempty(init);
            assert forall|i: int| 0 <= i < lower_nonempty(pieces).len() implies {
                &&& (#[trigger] lower_nonempty(pieces)[i]).len() > 0
                &&& ascii_lower(lower_nonempty(pieces)[i]) == lower_nonempty(pieces)[i]
                &&& !lower_nonempty(pieces)[i].contains(';')
            } by {
                if i < prev.len() {
                    assert(lower_nonempty(pieces)[i] == prev[i]);
                }
            }
        }
    }
}

/// Non-empty lower-case names are kept as they are.
proof fn lemma_lower_nonempty_fixed(names: Seq<Seq<char>>)
    requires
        forall|i: int|
            0 <= i < names.len() ==> (#[trigger] names[i]).len() > 0 && ascii_lower(names[i])
                == names[i],
    ensures
        lower_nonempty(names) == names,
    decreases names.len(),
{
    if names.len() > 0 {
        let init = names.drop_last();
        assert forall|i: int| 0 <= i < init.len() implies (#[trigger] init[i]).len() > 0
            && ascii_lower(init[i]) == init[i] by {
            assert(init[i] == names[i]);
        }
        lemma_lower_nonempty_fixed(init);
        assert(names.last() == names[names.len() - 1]);
        assert(init.push(names.last()) =~= names);
    }
}

/// The names recorded in a stack value are non-empty, lower case, and without `;`.
pub proof fn lemma_stack_entries_plain(current: Seq<char>)
    ensures
        forall|i: int|
            0 <= i < stack_entries(current).len() ==> {
                &&& (#[trigger] stack_entries(current)[i]).len() > 0
                &&& ascii_lower(stack_entries(current)[i]) == stack_entries(current)[i]
                &&& !stack_entries(current)[i].contains(';')
            },
{
    lemma_split_pieces_plain(current, ';');
    lemma_lower_nonempty_plain(split_on(current, ';'));
}

/// The stack value that `updated_stack` hands on records exactly the names
/// that were running plus the canonical name of the alias being started.
pub proof fn law_stack_records_run(name: Seq<char>, current: Seq<char>)
    requires
        name.len() > 0,
        !name.contains(';'),
        stack_outcome(name, current) is Ok,
    ensures
        stack_outcome(name, current) matches Ok(t) && stack_entries(t) == stack_entries(
            current,
        ).push(ascii_lower(name)),
{
    let c = ascii_lower(name);
    let entries = stack_entries(current);
    let all = entries.push(c);
    lemma_stack_entries_plain(current);
    lemma_ascii_lower_keeps(name, ';');
    lemma_ascii_lower_idempotent(name);
    reveal_strlit(";");
    assert(";"@ =~= seq![';']);
    assert forall|i: int| 0 <= i < all.len() implies !(#[trigger] all[i]).contains(';') by {
        if i < entries.len() {
            assert(all[i] == entries[i]);
        }
    }
    lemma_split_join(all, ';');
    assert forall|i: int| 0 <= i < all.len() implies (#[trigger] all[i]).len() > 0 && ascii_lower(
        all[i],
    ) == all[i] by {
        if i < entries.len() {
            assert(all[i] == entries[i]);
        }
    }
    lemma_lower_nonempty_fixed(all);
}

/// Recursion is refused: running, under the stack value handed on for an
/// alias, any alias whose name equals it up to ASCII case fails.
pub proof fn law_stack_refuses_rerun(name: Seq<char>, other: Seq<char>, current: Seq<char>)
    requires
        name.len() > 0,
        !name.contains(';'),
        ascii_lower(other) == ascii_lower(name),
        stack_outcome(name, current) is Ok,
    ensures
        stack_outcome(name, current) matches Ok(t) && stack_outcome(other, t) is Err,
{
    law_stack_records_run(name, current);
    let t = stack_outcome(name, current)->Ok_0;
    let e = stack_entries(t);
    assert(e[e.len() - 1] == ascii_lower(name));
    assert(e.contains(ascii_lower(other)));
}

/// Nesting is limited: a stack value handed on records at most
/// `MAX_NESTING` names.
pub proof fn law_stack_depth_limited(name: Seq<char>, current: Seq<char>)
    requires
        name.len() > 0,
        !name.contains(';'),
        stack_outcome(name, current) is Ok,
    ensures
        stack_outcome(name, current) matches Ok(t) && stack_entries(t).len() <= MAX_NESTING,
{
    law_stack_records_run(name, current);
}


proof fn lemma_run_before_tail(s: Seq<char>, k: int)
    requires
        0 <= k <= s.len(),
    ensures
        run_before(s, k) <= k,
        forall|j: int| k - run_before(s, k) <= j < k ==> s[j] == '\\',
    decreases k,
{
    if k > 0 && s[k - 1] == '\\' {
        lemma_run_before_tail(s, k - 1);
    }
}

proof fn lemma_cmd_body_plain(s: Seq<char>, n: int)
    requires
        0 <= n <= s.len(),
        !s.contains('"'),
        !s.contains('%'),
    ensures
        cmd_body(s, n) == s.take(n),
    decreases n,
{
    if n > 0 {
        lemma_cmd_body_plain(s, n - 1);
        assert(s[n - 1] != '"' && s[n - 1] != '%') by {
            if s[n - 1] == '"' {
                assert(s.contains('"'));
            }
            if s[n - 1] == '%' {
                assert(s.contains('%'));
            }
        }
        assert(cmd_piece(s, n - 1) =~= seq![s[n - 1]]);
        assert(s.take(n - 1) + seq![s[n - 1]] =~= s.take(n));
    }
}

/// Parsing a quoted prefix of a value holds the text before the trailing
/// backslashes and keeps those backslashes pending.
proof fn lemma_parse_quoted_prefix(v: Seq<char>, k: int)
    requires
        0 <= k <= v.len(),
        !v.contains('"'),
    ensures
        split_fold(seq!['"'] + v.take(k)) == (SplitState {
            done: Seq::empty(),
            cur: v.take(k - run_before(v, k)),
            in_word: true,
            quoted: true,
            pending: run_before(v, k),
        }),
    decreases k,
{
    lemma_run_before_tail(v, k);
    if k == 0 {
        assert(seq!['"'] + v.take(0) =~= seq!['"']);
        assert(seq!['"'].drop_last() =~= Seq::<char>::empty());
        assert(split_fold(Seq::<char>::empty()) == split_start());
        assert(split_fold(seq!['"']) == split_step(split_start(), '"'));
        assert(Seq::<char>::empty() + backslashes(0) =~= v.take(0));
    } else {
        lemma_parse_quoted_prefix(v, k - 1);
        lemma_run_before_tail(v, k - 1);
        let s = seq!['"'] + v.take(k);
        assert(s.drop_last() =~= seq!['"'] + v.take(k - 1));
        assert(s.last() == v[k - 1]);
        let c = v[k - 1];
        assert(c != '"') by {
            if c == '"' {
                assert(v.contains('"'));
            }
        }
        let r = run_before(v, k - 1);
        assert(split_fold(s) == split_step(split_fold(seq!['"'] + v.take(k - 1)), c));
        if c == '\\' {
            assert(v.take(k - 1 - r) =~= v.take(k - (r + 1)));
            assert(run_before(v, k) == r + 1);
        } else {
            assert(run_before(v, k) == 0);
            let x = v.take(k - 1 - r) + backslashes(r);
            assert(x =~= v.take(k - 1)) by {
                assert forall|p: int| 0 <= p < k - 1 implies #[trigger] x[p] == v.take(k - 1)[p] by {
                    if p >= k - 1 - r {
                        assert(v[p] == '\\');
                    }
                }
            }
            assert((v.take(k - 1 - r) + backslashes(r)).push(c) =~= v.take(k));
        }
    }
}

proof fn lemma_parse_pending_backslashes(base: Seq<char>, j: nat)
    requires
        split_fold(base).quoted,
        split_fold(base).in_word,
    ensures
        split_fold(base + backslashes(j)) == (SplitState {
            pending: split_fold(base).pending + j,
            ..split_fold(base)
        }),
    decreases j,
{
    if j == 0 {
        assert(base + backslashes(0) =~= base);
    } else {
        lemma_parse_pending_backslashes(base, (j - 1) as nat);
        let s = base + backslashes(j);
        assert(s.drop_last() =~= base + backslashes((j - 1) as nat));
        assert(s.last() == '\\');
    }
}

/// A value without quotes or percent signs, quoted for CMD, parses back under
/// the Microsoft C rules as exactly that one value.
pub proof fn law_quoted_value_parses_back(v: Seq<char>)
    requires
        !v.contains('"'),
        !v.contains('%'),
    ensures
        split_windows(quote_cmd(v)) == Some(seq![v]),
{
    let n = v.len() as int;
    let r = run_before(v, n);
    lemma_cmd_body_plain(v, n);
    lemma_run_before_tail(v, n);
    lemma_parse_quoted_prefix(v, n);
    assert(v.take(n) =~= v);
    let base = seq!['"'] + v;
    assert(seq!['"'] + v.take(n) =~= base);
    lemma_parse_pending_backslashes(base, r);
    let body = base + backslashes(r);
    let q = quote_cmd(v);
    assert(q =~= body.push('"'));
    assert(q.drop_last() =~= body);
    let st = split_fold(body);
    assert(st.pending == 2 * r);
    assert((2 * r) / 2 == r);
    let x = v.take(n - r) + backslashes(r);
    assert(x =~= v) by {
        assert forall|p: int| 0 <= p < n implies #[trigger] x[p] == v[p] by {
            if p >= n - r {
                assert(v[p] == '\\');
            }
        }
    }
    assert(backslashes(0) =~= Seq::<char>::empty());
    assert(v + Seq::<char>::empty() =~= v);
    assert(Seq::<Seq<char>>::empty().push(v) =~= seq![v]);
}

} // verus!
