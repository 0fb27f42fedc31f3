use vstd::prelude::*;

use crate::lexer::find_from;
use crate::strmap::{key_lt, lookup, sorted_insert, StringMap};
use crate::text::{decimal, push_decimal, is_alnum, is_alpha, is_ascii_alphabetic, is_ascii_alphanumeric, slice_chars, to_chars};

verus! {

/// The environment as key-value pairs in key order.
pub type EnvModel = Seq<(Seq<char>, Seq<char>)>;

pub open spec fn env_of(s: Seq<(Seq<char>, String)>) -> EnvModel {
    s.map_values(|e: (Seq<char>, String)| (e.0, e.1@))
}

/// The value of variable `name`, empty when unset.
pub open spec fn var_value(env: EnvModel, name: Seq<char>) -> Seq<char> {
    match lookup(env, name) {
        Some(v) => v,
        None => Seq::empty(),
    }
}

pub open spec fn is_name_char(c: char) -> bool {
    c == '_' || is_alnum(c)
}

/// The index after the run of name characters that starts at `j`.
pub open spec fn name_end(t: Seq<char>, j: int) -> int
    decreases t.len() - j,
{
    if j < 0 || j >= t.len() || !is_name_char(t[j]) {
        j
    } else {
        name_end(t, j + 1)
    }
}

/// The decimal text of a status, with a `-` when negative.
pub open spec fn status_text(code: i32) -> Seq<char> {
    if code < 0 {
        seq!['-'] + decimal((-code) as nat)
    } else {
        decimal(code as nat)
    }
}

/// `text[i..]` with `$NAME` and `${NAME}` replaced by their values and `$?`
/// and `${?}` by the status `status`; a `$` not followed by a name stays as it is.
pub open spec fn expand_from(t: Seq<char>, i: int, env: EnvModel, status: i32) -> Seq<char>
    decreases t.len() - i,
{
    if i < 0 || i >= t.len() {
        Seq::empty()
    } else if t[i] != '$' {
        seq![t[i]] + expand_from(t, i + 1, env, status)
    } else if i + 1 < t.len() && t[i + 1] == '{' {
        let k = find_from(t, i + 2, '}');
        let next = if k < t.len() { k + 1 } else { t.len() as int };
        if k < i + 2 || next <= i || next > t.len() {
            Seq::empty()
        } else if t.subrange(i + 2, k) == seq!['?'] {
            status_text(status) + expand_from(t, next, env, status)
        } else {
            var_value(env, t.subrange(i + 2, k)) + expand_from(t, next, env, status)
        }
    } else if i + 1 < t.len() && t[i + 1] == '?' {
        status_text(status) + expand_from(t, i + 2, env, status)
    } else {
        let k = name_end(t, i + 1);
        if k > t.len() {
            Seq::empty()
        } else if k <= i + 1 {
            seq!['$'] + expand_from(t, i + 1, env, status)
        } else {
            var_value(env, t.subrange(i + 1, k)) + expand_from(t, k, env, status)
        }
    }
}

pub open spec fn expand_text_spec(t: Seq<char>, env: EnvModel, status: i32) -> Seq<char> {
    expand_from(t, 0, env, status)
}

/// Appends the decimal text of a status.
pub fn push_status(out: &mut Vec<char>, code: i32)
    ensures
        final(out)@ == old(out)@ + status_text(code),
{
    if code < 0 {
        out.push('-');
        let m: i64 = -(code as i64);
        push_decimal(out, m as usize);
        assert(out@ =~= old(out)@ + status_text(code));
    } else {
        push_decimal(out, code as usize);
    }
}

proof fn lemma_find_from_bounds(s: Seq<char>, j: int, c: char)
    requires
        0 <= j <= s.len(),
    ensures
        j <= find_from(s, j, c) <= s.len(),
        find_from(s, j, c) < s.len() ==> s[find_from(s, j, c)] == c,
    decreases s.len() - j,
{
    if j < s.len() && s[j] != c {
        lemma_find_from_bounds(s, j + 1, c);
    }
}

proof fn lemma_name_end_bounds(t: Seq<char>, j: int)
    requires
        0 <= j <= t.len(),
    ensures
        j <= name_end(t, j) <= t.len(),
    decreases t.len() - j,
{
    if j < t.len() && is_name_char(t[j]) {
        lemma_name_end_bounds(t, j + 1);
    }
}

fn find_char(t: &[char], from: usize, c: char) -> (k: usize)
    requires
        from <= t.len(),
    ensures
        k == find_from(t@, from as int, c),
        from <= k <= t.len(),
{
    let mut k = from;
    while k < t.len() && t[k] != c
        invariant
            from <= k <= t.len(),
            find_from(t@, from as int, c) == find_from(t@, k as int, c),
        decreases t.len() - k,
    {
        k += 1;
    }
    k
}

fn name_end_exec(t: &[char], from: usize) -> (k: usize)
    requires
        from <= t.len(),
    ensures
        k == name_end(t@, from as int),
        from <= k <= t.len(),
{
    let mut k = from;
    while k < t.len() && (t[k] == '_' || is_ascii_alphanumeric(t[k]))
        invariant
            from <= k <= t.len(),
            name_end(t@, from as int) == name_end(t@, k as int),
        decreases t.len() - k,
    {
        k += 1;
    }
    k
}

/// Appends the value of variable `name`.
pub fn push_var(out: &mut Vec<char>, env: &StringMap<String>, name: &[char])
    ensures
        final(out)@ == old(out)@ + var_value(env_of(env@), name@),
{
    proof {
        lemma_lookup_env(env@, name@);
    }
    match env.get_chars(name) {
        Some(v) => {
            let c = to_chars(v.as_str());
            crate::text::extend_from(out, &c);
        },
        None => {
            assert(out@ == old(out)@ + Seq::<char>::empty());
        },
    }
}

pub proof fn lemma_lookup_env(s: Seq<(Seq<char>, String)>, k: Seq<char>)
    ensures
        lookup(env_of(s), k) == (match lookup(s, k) {
            Some(v) => Some(v@),
            None => None,
        }),
    decreases s.len(),
{
    if s.len() > 0 {
        assert(env_of(s).drop_first() =~= env_of(s.drop_first()));
        lemma_lookup_env(s.drop_first(), k);
    }
}

pub proof fn lemma_env_insert(s: Seq<(Seq<char>, String)>, k: Seq<char>, v: String)
    ensures
        env_of(sorted_insert(s, k, v)) == sorted_insert(env_of(s), k, v@),
    decreases s.len(),
{
    if s.len() > 0 {
        assert(env_of(s).drop_first() =~= env_of(s.drop_first()));
        lemma_env_insert(s.drop_first(), k, v);
        if s[0].0 == k {
            assert(env_of(sorted_insert(s, k, v)) =~= sorted_insert(env_of(s), k, v@));
        } else if key_lt(k, s[0].0) {
            assert(env_of(sorted_insert(s, k, v)) =~= sorted_insert(env_of(s), k, v@));
        } else {
            assert(env_of(sorted_insert(s, k, v)) =~= sorted_insert(env_of(s), k, v@));
        }
    } else {
        assert(env_of(sorted_insert(s, k, v)) =~= sorted_insert(env_of(s), k, v@));
    }
}

/// `text` with variables expanded from `env` and `$?` from `status`.
pub fn expand_text(text: &[char], env: &StringMap<String>, status: i32) -> (r: Vec<char>)
    ensures
        r@ == expand_text_spec(text@, env_of(env@), status),
{
    let ghost e = env_of(env@);
    let mut expanded: Vec<char> = Vec::new();
    let mut i: usize = 0;
    while i < text.len()
        invariant
            i <= text.len(),
            e == env_of(env@),
            expand_from(text@, 0, e, status) == expanded@ + expand_from(text@, i as int, e, status),
        decreases text.len() - i,
    {
        let ch = text[i];
        if ch != '$' {
            expanded.push(ch);
            i += 1;
            continue;
        }
        if i + 1 < text.len() && text[i + 1] == '{' {
            let k = find_char(text, i + 2, '}');
            let name = slice_chars(text, i + 2, k);
            if name.len() == 1 && name[0] == '?' {
                assert(name@ =~= seq!['?']);
                push_status(&mut expanded, status);
            } else {
                proof {
                    if name@ == seq!['?'] {
                        assert(name@[0] == '?');
                    }
                }
                push_var(&mut expanded, env, &name);
            }
            i = if k < text.len() { k + 1 } else { text.len() };
            continue;
        }
        if i + 1 < text.len() && text[i + 1] == '?' {
            push_status(&mut expanded, status);
            i += 2;
            continue;
        }
        let k = name_end_exec(text, i + 1);
        if k == i + 1 {
            expanded.push('$');
        } else {
            let name = slice_chars(text, i + 1, k);
            push_var(&mut expanded, env, &name);
        }
        i = k;
    }
    expanded
}

// ─── Assignments ────────────────────────────────────────────────────────────

/// `NAME=value` with a name of letters, digits and `_`, not starting with a digit.
pub open spec fn is_assignment_spec(w: Seq<char>) -> bool {
    let k = find_from(w, 0, '=');
    0 < k < w.len() && (w[0] == '_' || is_alpha(w[0])) && forall|j: int|
        1 <= j < k ==> is_name_char(#[trigger] w[j])
}

pub fn is_assignment(word: &[char]) -> (r: bool)
    ensures
        r == is_assignment_spec(word@),
{
    let k = find_char(word, 0, '=');
    if k == word.len() || k == 0 {
        return false;
    }
    let first = word[0];
    if !(first == '_' || is_ascii_alphabetic(first)) {
        return false;
    }
    let mut j: usize = 1;
    while j < k
        invariant
            1 <= j <= k,
            k < word.len(),
            k == find_from(word@, 0, '='),
            word@[0] == '_' || is_alpha(word@[0]),
            forall|m: int| 1 <= m < j ==> is_name_char(#[trigger] word@[m]),
        decreases k - j,
    {
        if !(word[j] == '_' || is_ascii_alphanumeric(word[j])) {
            assert(!is_name_char(word@[j as int]));
            return false;
        }
        j += 1;
    }
    true
}

/// The key and value of `key=value`, split at the first `=`.
pub open spec fn split_key(w: Seq<char>) -> Seq<char> {
    w.take(find_from(w, 0, '='))
}

pub open spec fn split_value(w: Seq<char>) -> Seq<char> {
    let k = find_from(w, 0, '=');
    if k < w.len() { w.skip(k + 1) } else { Seq::empty() }
}

/// Whether `word` holds an `=`.
pub fn has_equals(word: &[char]) -> (r: bool)
    ensures
        r == (find_from(word@, 0, '=') < word@.len()),
{
    find_char(word, 0, '=') < word.len()
}

pub fn split_assignment(word: &[char]) -> (r: (Vec<char>, Vec<char>))
    ensures
        r.0@ == split_key(word@),
        r.1@ == split_value(word@),
{
    let k = find_char(word, 0, '=');
    let key = slice_chars(word, 0, k);
    let value = if k < word.len() {
        slice_chars(word, k + 1, word.len())
    } else {
        Vec::new()
    };
    assert(word@.subrange(0, k as int) == word@.take(k as int));
    assert(k < word.len() ==> word@.subrange(k + 1, word@.len() as int) == word@.skip(k + 1));
    assert(k >= word.len() ==> value@ == Seq::<char>::empty());
    (key, value)
}

// ─── printf ─────────────────────────────────────────────────────────────────

pub open spec fn escape_char(c: char) -> char {
    if c == 'n' {
        '\n'
    } else if c == 't' {
        '\t'
    } else if c == 'r' {
        '\r'
    } else {
        c
    }
}

/// The argument at `base + consumed`, or empty past the end.
pub open spec fn printf_arg(args: Seq<Seq<char>>, n: int) -> Seq<char> {
    if 0 <= n < args.len() { args[n] } else { Seq::empty() }
}

/// One pass over the format from index `i`: the text it gives and how many
/// arguments (from `args[base..]`) it used, `consumed` being those used so far.
pub open spec fn printf_from(f: Seq<char>, i: int, args: Seq<Seq<char>>, base: int, consumed: int) -> (
    Seq<char>,
    int,
)
    decreases f.len() - i,
{
    if i < 0 || i >= f.len() {
        (Seq::empty(), consumed)
    } else if f[i] == '\\' {
        if i + 1 < f.len() {
            let r = printf_from(f, i + 2, args, base, consumed);
            (seq![escape_char(f[i + 1])] + r.0, r.1)
        } else {
            (seq!['\\'], consumed)
        }
    } else if f[i] != '%' {
        let r = printf_from(f, i + 1, args, base, consumed);
        (seq![f[i]] + r.0, r.1)
    } else if i + 1 >= f.len() {
        (seq!['%'], consumed)
    } else {
        let d = f[i + 1];
        if d == '%' {
            let r = printf_from(f, i + 2, args, base, consumed);
            (seq!['%'] + r.0, r.1)
        } else if d == 's' || d == 'b' || d == 'd' || d == 'i' {
            let r = printf_from(f, i + 2, args, base, consumed + 1);
            (printf_arg(args, base + consumed) + r.0, r.1)
        } else {
            let r = printf_from(f, i + 2, args, base, consumed);
            (seq!['%', d] + r.0, r.1)
        }
    }
}

/// Repeats the format until the arguments from `idx` on are used up.
pub open spec fn printf_rounds(f: Seq<char>, args: Seq<Seq<char>>, idx: int) -> Seq<char>
    decreases args.len() - idx,
{
    if idx < 0 || idx >= args.len() {
        Seq::empty()
    } else {
        let (o, c) = printf_from(f, 0, args, idx, 0);
        let step = if c < 1 { 1 } else { c };
        if idx + step >= args.len() {
            o
        } else {
            o + printf_rounds(f, args, idx + step)
        }
    }
}

/// What `printf FORMAT ARGS...` prints.
pub open spec fn format_printf_spec(f: Seq<char>, args: Seq<Seq<char>>) -> Seq<char> {
    if args.len() == 0 {
        printf_from(f, 0, args, 0, 0).0
    } else {
        printf_rounds(f, args, 0)
    }
}

proof fn lemma_printf_consumed(f: Seq<char>, i: int, args: Seq<Seq<char>>, base: int, consumed: int)
    requires
        0 <= consumed,
    ensures
        consumed <= printf_from(f, i, args, base, consumed).1,
        printf_from(f, i, args, base, consumed).1 <= consumed + f.len() - i || i >= f.len() || i < 0,
    decreases f.len() - i,
{
    if 0 <= i < f.len() {
        if f[i] == '\\' {
            if i + 1 < f.len() {
                lemma_printf_consumed(f, i + 2, args, base, consumed);
            }
        } else if f[i] != '%' {
            lemma_printf_consumed(f, i + 1, args, base, consumed);
        } else if i + 1 < f.len() {
            let d = f[i + 1];
            if d == 's' || d == 'b' || d == 'd' || d == 'i' {
                lemma_printf_consumed(f, i + 2, args, base, consumed + 1);
            } else {
                lemma_printf_consumed(f, i + 2, args, base, consumed);
            }
        }
    }
}

fn append_printf_once(output: &mut Vec<char>, format: &[char], args: &Vec<Vec<char>>, base: usize) -> (consumed: usize)
    requires
        base <= args.len(),
    ensures
        final(output)@ == old(output)@ + printf_from(format@, 0, crate::text::views(args@), base as int, 0).0,
        consumed == printf_from(format@, 0, crate::text::views(args@), base as int, 0).1,
{
    let ghost av = crate::text::views(args@);
    let mut consumed: usize = 0;
    let mut i: usize = 0;
    proof {
        lemma_printf_consumed(format@, 0, av, base as int, 0);
    }
    while i < format.len()
        invariant
            i <= format.len(),
            base <= args.len(),
            av == crate::text::views(args@),
            consumed <= i,
            printf_from(format@, 0, av, base as int, 0) == (
                output@.skip(old(output)@.len() as int) + printf_from(format@, i as int, av, base as int, consumed as int).0,
                printf_from(format@, i as int, av, base as int, consumed as int).1,
            ),
            output@.take(old(output)@.len() as int) == old(output)@,
            old(output)@.len() <= output@.len(),
        decreases format.len() - i,
    {
        let ghost o0 = output@;
        let ch = format[i];
        if ch == '\\' {
            if i + 1 < format.len() {
                let n = format[i + 1];
                let e = if n == 'n' {
                    '\n'
                } else if n == 't' {
                    '\t'
                } else if n == 'r' {
                    '\r'
                } else {
                    n
                };
                output.push(e);
                i += 2;
            } else {
                output.push('\\');
                i += 1;
                assert(output@.skip(old(output)@.len() as int) =~= o0.skip(old(output)@.len() as int).push('\\'));
                assert(output@.take(old(output)@.len() as int) =~= o0.take(old(output)@.len() as int));
                return consumed;
            }
        } else if ch != '%' {
            output.push(ch);
            i += 1;
        } else if i + 1 >= format.len() {
            output.push('%');
            i += 1;
            assert(output@.skip(old(output)@.len() as int) =~= o0.skip(old(output)@.len() as int).push('%'));
            assert(output@.take(old(output)@.len() as int) =~= o0.take(old(output)@.len() as int));
            return consumed;
        } else {
            let d = format[i + 1];
            if d == '%' {
                output.push('%');
            } else if d == 's' || d == 'b' || d == 'd' || d == 'i' {
                if consumed < args.len() - base {
                    crate::text::extend_from(output, &args[base + consumed]);
                    assert(av[base + consumed] == args@[base + consumed]@);
                } else {
                    assert(printf_arg(av, base + consumed) == Seq::<char>::empty());
                    assert(output@ == o0);
                }
                consumed += 1;
            } else {
                output.push('%');
                output.push(d);
            }
            i += 2;
        }
        assert(output@.take(old(output)@.len() as int) =~= o0.take(old(output)@.len() as int));
        assert(output@.skip(old(output)@.len() as int) =~= o0.skip(old(output)@.len() as int) + (output@.skip(o0.len() as int)));
    }
    assert(output@ =~= old(output)@ + output@.skip(old(output)@.len() as int));
    consumed
}

/// What `printf FORMAT ARGS...` prints: the format is applied again and again
/// until every argument is used.
pub fn format_printf(format: &[char], args: &Vec<Vec<char>>) -> (r: Vec<char>)
    ensures
        r@ == format_printf_spec(format@, crate::text::views(args@)),
{
    let ghost av = crate::text::views(args@);
    let mut output: Vec<char> = Vec::new();
    if args.len() == 0 {
        append_printf_once(&mut output, format, args, 0);
        return output;
    }
    let mut arg_index: usize = 0;
    while arg_index < args.len()
        invariant
            av == crate::text::views(args@),
            args.len() > 0,
            format_printf_spec(format@, av) == output@ + printf_rounds(format@, av, arg_index as int),
        decreases args.len() - arg_index,
    {
        let consumed = append_printf_once(&mut output, format, args, arg_index);
        let step = if consumed < 1 { 1 } else { consumed };
        if step >= args.len() - arg_index {
            arg_index = args.len();
        } else {
            arg_index += step;
        }
    }
    output
}

}

verus! {

// ─── Laws of expansion ──────────────────────────────────────────────────────

proof fn lemma_expand_plain(t: Seq<char>, i: int, env: EnvModel, status: i32)
    requires
        0 <= i <= t.len(),
        !t.contains('$'),
    ensures
        expand_from(t, i, env, status) == t.skip(i),
    decreases t.len() - i,
{
    if i < t.len() {
        assert(t[i] != '$');
        lemma_expand_plain(t, i + 1, env, status);
        assert(t.skip(i) =~= seq![t[i]] + t.skip(i + 1));
    } else {
        assert(t.skip(i) =~= Seq::<char>::empty());
    }
}

/// Text without `$` expands to itself.
pub proof fn law_expand_without_dollar(t: Seq<char>, env: EnvModel, status: i32)
    requires
        !t.contains('$'),
    ensures
        expand_text_spec(t, env, status) == t,
{
    lemma_expand_plain(t, 0, env, status);
    assert(t.skip(0) =~= t);
}

proof fn lemma_name_end_all(t: Seq<char>, j: int)
    requires
        0 <= j <= t.len(),
        forall|m: int| j <= m < t.len() ==> is_name_char(#[trigger] t[m]),
    ensures
        name_end(t, j) == t.len(),
    decreases t.len() - j,
{
    if j < t.len() {
        lemma_name_end_all(t, j + 1);
    }
}

/// A name that is not set expands to nothing, in `$NAME` and in `${NAME}`;
/// a `$` alone stays as it is.
pub proof fn law_expand_unset(n: Seq<char>, env: EnvModel, status: i32)
    requires
        n.len() > 0,
        forall|m: int| 0 <= m < n.len() ==> is_name_char(#[trigger] n[m]),
        lookup(env, n) is None,
    ensures
        expand_text_spec(seq!['$'] + n, env, status) == Seq::<char>::empty(),
        expand_text_spec(seq!['$', '{'] + n + seq!['}'], env, status) == Seq::<char>::empty(),
        expand_text_spec(seq!['$'], env, status) == seq!['$'],
{
    let t = seq!['$'] + n;
    assert(t[1] == n[0]);
    assert forall|m: int| 1 <= m < t.len() implies is_name_char(#[trigger] t[m]) by {
        assert(t[m] == n[m - 1]);
    }
    lemma_name_end_all(t, 1);
    assert(t.subrange(1, t.len() as int) =~= n);
    assert(t[0] == '$');
    assert(t[1] != '{' && t[1] != '?');
    assert(var_value(env, n) =~= Seq::<char>::empty());
    assert(expand_from(t, t.len() as int, env, status) =~= Seq::<char>::empty());
    assert(expand_from(t, 0, env, status) =~= Seq::<char>::empty());
    let b = seq!['$', '{'] + n + seq!['}'];
    assert forall|m: int| 2 <= m < b.len() - 1 implies #[trigger] b[m] != '}' by {
        assert(b[m] == n[m - 2]);
    }
    lemma_find_bracket(b, 2);
    assert(b.subrange(2, b.len() - 1) =~= n);
    assert(n != seq!['?']) by {
        if n == seq!['?'] {
            assert(is_name_char(n[0]));
        }
    }
    assert(b[0] == '$' && b[1] == '{');
    assert(expand_from(b, b.len() as int, env, status) =~= Seq::<char>::empty());
    assert(expand_from(b, 0, env, status) =~= Seq::<char>::empty());
    let d = seq!['$'];
    assert(d[0] == '$' && d.len() == 1);
    assert(name_end(d, 1) == 1);
    assert(expand_from(d, 1, env, status) =~= Seq::<char>::empty());
    assert(expand_from(d, 0, env, status) =~= seq!['$']);
}

proof fn lemma_find_bracket(b: Seq<char>, j: int)
    requires
        b.len() >= 1,
        0 <= j <= b.len() - 1,
        b[b.len() - 1] == '}',
        forall|m: int| j <= m < b.len() - 1 ==> #[trigger] b[m] != '}',
    ensures
        find_from(b, j, '}') == b.len() - 1,
    decreases b.len() - j,
{
    if j < b.len() - 1 {
        lemma_find_bracket(b, j + 1);
    }
}

}
