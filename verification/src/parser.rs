//! The Buildfile language: rules, environment settings, the default target
//! and includes, and `$VAR` / `${VAR}` expansion in commands.
use vstd::prelude::*;
use crate::env::EnvMap;
use crate::suggest::{hinted, with_hint};
use crate::text::{
    chars_eq, chars_of, decimal, decimal_vec, find_char, has_prefix, lemma_lines_len, lemma_next_index,
    lemma_trim_len, lines, lines_from, next_index, push_char, push_chars, slice_vec, split_words,
    join, starts_with, string_from, strip_cr, trim, trim_vec, words, is_ws, lemma_trim_exact, trim_start, trim_end,
};

verus! {

/// A character allowed in a `$VAR` name: ASCII letter, digit or underscore.
pub open spec fn is_name_char(c: char) -> bool {
    ('0' <= c && c <= '9') || ('a' <= c && c <= 'z') || ('A' <= c && c <= 'Z') || c == '_'
}

/// The first index at or after `i` that does not hold a name character.
pub open spec fn name_end(s: Seq<char>, i: int) -> int
    decreases s.len() - i,
{
    if i < 0 || i >= s.len() {
        s.len() as int
    } else if !is_name_char(s[i]) {
        i
    } else {
        name_end(s, i + 1)
    }
}

pub proof fn lemma_name_end(s: Seq<char>, i: int)
    requires
        0 <= i <= s.len(),
    ensures
        i <= name_end(s, i) <= s.len(),
        name_end(s, i) > i ==> is_name_char(s[i]),
    decreases s.len() - i,
{
    if i < s.len() && is_name_char(s[i]) {
        lemma_name_end(s, i + 1);
    }
}

/// The value of `k` in `env`, or nothing when it is unset.
pub open spec fn value_or_empty(env: Map<Seq<char>, Seq<char>>, k: Seq<char>) -> Seq<char> {
    if env.contains_key(k) {
        env[k]
    } else {
        seq![]
    }
}

/// The expansion of `s[i..]`: `${NAME}` (up to the next `}`) and `$NAME`
/// (a maximal run of name characters) become the variable's value, or
/// nothing when it is unset; every other character stays as it is.
pub open spec fn expand_from(s: Seq<char>, i: int, env: Map<Seq<char>, Seq<char>>) -> Seq<char>
    decreases s.len() - i,
{
    if i < 0 || i >= s.len() {
        seq![]
    } else if s[i] == '$' && i + 1 < s.len() && s[i + 1] == '{' && next_index(s, i + 2, '}')
        < s.len() {
        let e = next_index(s, i + 2, '}');
        proof {
            lemma_next_index(s, i + 2, '}');
        }
        value_or_empty(env, s.subrange(i + 2, e)) + expand_from(s, e + 1, env)
    } else if s[i] == '$' && i + 1 < s.len() && name_end(s, i + 1) > i + 1 {
        let e = name_end(s, i + 1);
        proof {
            lemma_name_end(s, i + 1);
        }
        value_or_empty(env, s.subrange(i + 1, e)) + expand_from(s, e, env)
    } else {
        seq![s[i]] + expand_from(s, i + 1, env)
    }
}

/// The expansion of the variables in `s`.
pub open spec fn expanded(s: Seq<char>, env: Map<Seq<char>, Seq<char>>) -> Seq<char> {
    expand_from(s, 0, env)
}

fn is_name_byte(c: char) -> (r: bool)
    ensures
        r == is_name_char(c),
{
    ('0' <= c && c <= '9') || ('a' <= c && c <= 'z') || ('A' <= c && c <= 'Z') || c == '_'
}

/// Appends the value of the variable `name` (nothing when unset).
fn push_value(r: &mut String, env: &EnvMap, name: &Vec<char>)
    ensures
        final(r)@ == old(r)@ + value_or_empty(env.spec_map(), name@),
{
    match env.get_chars(name) {
        Some(v) => {
            r.append(v.as_str());
        },
        None => {
            assert(old(r)@ + seq![] =~= old(r)@);
        },
    }
}

/// Expands `$VAR` and `${VAR}` references in `s` using `env`.
pub fn expand_vars(s: &str, env: &EnvMap) -> (r: String)
    ensures
        r@ == expanded(s@, env.spec_map()),
{
    let c = chars_of(s);
    let ghost m = env.spec_map();
    let mut r = String::new();
    let mut i: usize = 0;
    let n = c.len();
    while i < n
        invariant
            n == c@.len(),
            c@ == s@,
            i <= n,
            m == env.spec_map(),
            r@ + expand_from(c@, i as int, m) == expanded(c@, m),
        decreases n - i,
    {
        let ghost r0 = r@;
        if c[i] == '$' && i + 1 < n {
            if c[i + 1] == '{' {
                let e = find_char(&c, i + 2, '}');
                if e < n {
                    let name = slice_vec(&c, i + 2, e);
                    push_value(&mut r, env, &name);
                    assert(r@ + expand_from(c@, e + 1, m) =~= r0 + expand_from(c@, i as int, m));
                    i = e + 1;
                    continue;
                }
            }
            let start = i + 1;
            let mut end = start;
            while end < n && is_name_byte(c[end])
                invariant
                    start <= end <= n,
                    n == c@.len(),
                    name_end(c@, start as int) == name_end(c@, end as int),
                decreases n - end,
            {
                end += 1;
            }
            proof {
                lemma_name_end(c@, start as int);
            }
            if end > start {
                let name = slice_vec(&c, start, end);
                push_value(&mut r, env, &name);
                assert(r@ + expand_from(c@, end as int, m) =~= r0 + expand_from(c@, i as int, m));
                i = end;
                continue;
            }
        }
        push_char(&mut r, c[i]);
        assert(r@ + expand_from(c@, i + 1, m) =~= r0 + expand_from(c@, i as int, m));
        i += 1;
    }
    r
}


/// A single build rule.
#[derive(Debug, Clone)]
pub struct Rule {
    pub name: String,
    pub commands: Vec<String>,
    pub deps: Vec<String>,
    pub inputs: Vec<String>,
    pub outputs: Vec<String>,
    pub env: EnvMap,
    pub description: String,
    pub phony: bool,
}

/// The content of a rule, as character sequences.
pub struct RuleView {
    pub name: Seq<char>,
    pub commands: Seq<Seq<char>>,
    pub deps: Seq<Seq<char>>,
    pub inputs: Seq<Seq<char>>,
    pub outputs: Seq<Seq<char>>,
    pub env: Map<Seq<char>, Seq<char>>,
    pub description: Seq<char>,
    pub phony: bool,
}

/// Strings as character sequences.
pub open spec fn strs(v: Seq<String>) -> Seq<Seq<char>> {
    v.map_values(|s: String| s@)
}

impl View for Rule {
    type V = RuleView;

    open spec fn view(&self) -> RuleView {
        RuleView {
            name: self.name@,
            commands: strs(self.commands@),
            deps: strs(self.deps@),
            inputs: strs(self.inputs@),
            outputs: strs(self.outputs@),
            env: self.env.spec_map(),
            description: self.description@,
            phony: self.phony,
        }
    }
}

/// A rule named `name` with nothing else set.
pub open spec fn new_rule(name: Seq<char>) -> RuleView {
    RuleView {
        name,
        commands: seq![],
        deps: seq![],
        inputs: seq![],
        outputs: seq![],
        env: Map::empty(),
        description: seq![],
        phony: false,
    }
}

/// Copies a list of strings.
pub fn clone_strings(v: &Vec<String>) -> (r: Vec<String>)
    ensures
        strs(r@) == strs(v@),
        r@.len() == v@.len(),
{
    let mut r: Vec<String> = Vec::new();
    let mut i: usize = 0;
    while i < v.len()
        invariant
            i <= v@.len(),
            r@.len() == i,
            forall|j: int| 0 <= j < i ==> #[trigger] r@[j]@ == v@[j]@,
        decreases v@.len() - i,
    {
        r.push(v[i].clone());
        i += 1;
    }
    assert(strs(r@) =~= strs(v@));
    r
}

/// Strings made from character vectors.
pub fn strings_of(v: &Vec<Vec<char>>) -> (r: Vec<String>)
    ensures
        r@.len() == v@.len(),
        forall|j: int| 0 <= j < v@.len() ==> #[trigger] r@[j]@ == v@[j]@,
{
    let mut r: Vec<String> = Vec::new();
    let mut i: usize = 0;
    while i < v.len()
        invariant
            i <= v@.len(),
            r@.len() == i,
            forall|j: int| 0 <= j < i ==> #[trigger] r@[j]@ == v@[j]@,
        decreases v@.len() - i,
    {
        r.push(string_from(&v[i]));
        i += 1;
    }
    r
}

impl Rule {
    /// A rule named `name` with no commands, dependencies, files or settings.
    pub fn new(name: String) -> (r: Rule)
        ensures
            r@ == new_rule(name@),
    {
        let r = Rule {
            name,
            commands: Vec::new(),
            deps: Vec::new(),
            inputs: Vec::new(),
            outputs: Vec::new(),
            env: EnvMap::new(),
            description: String::new(),
            phony: false,
        };
        assert(strs(r.commands@) =~= seq![]);
        assert(strs(r.deps@) =~= seq![]);
        assert(strs(r.inputs@) =~= seq![]);
        assert(strs(r.outputs@) =~= seq![]);
        r
    }

    /// A copy of this rule.
    pub fn copy(&self) -> (r: Rule)
        ensures
            r@ == self@,
    {
        Rule {
            name: self.name.clone(),
            commands: clone_strings(&self.commands),
            deps: clone_strings(&self.deps),
            inputs: clone_strings(&self.inputs),
            outputs: clone_strings(&self.outputs),
            env: self.env.clone_map(),
            description: self.description.clone(),
            phony: self.phony,
        }
    }
}

/// One effect of a Buildfile line on the build description, in file order.
#[derive(Debug, Clone)]
pub enum Statement {
    /// A completed rule block, with the line number that ended it.
    Rule(Rule, usize),
    /// A global `env KEY = VALUE`.
    Env(String, String),
    /// A `default TARGET`.
    Default(String),
    /// An `include PATH`, with its line number.
    Include(String, usize),
}

pub enum StatementView {
    Rule(RuleView, nat),
    Env(Seq<char>, Seq<char>),
    Default(Seq<char>),
    Include(Seq<char>, nat),
}

impl View for Statement {
    type V = StatementView;

    open spec fn view(&self) -> StatementView {
        match self {
            Statement::Rule(r, n) => StatementView::Rule(r@, *n as nat),
            Statement::Env(k, v) => StatementView::Env(k@, v@),
            Statement::Default(t) => StatementView::Default(t@),
            Statement::Include(p, n) => StatementView::Include(p@, *n as nat),
        }
    }
}

pub open spec fn stmts(v: Seq<Statement>) -> Seq<StatementView> {
    v.map_values(|s: Statement| s@)
}

pub open spec fn opt_rule(o: Option<Rule>) -> Option<RuleView> {
    match o {
        Some(r) => Some(r@),
        None => None,
    }
}

/// `"line N: "`, the prefix of every message about line `n`.
pub open spec fn line_tag(n: nat) -> Seq<char> {
    "line "@ + decimal(n) + ": "@
}

/// The statements found so far and the rule block being read.
pub struct Pending {
    pub items: Seq<StatementView>,
    pub cur: Option<RuleView>,
}

/// Ends the open rule block, if any, at line `n`.
pub open spec fn flush(p: Pending, n: nat) -> Pending {
    match p.cur {
        Some(r) => Pending { items: p.items.push(StatementView::Rule(r, n)), cur: None },
        None => p,
    }
}

/// `KEY = VALUE`, both sides trimmed; the key must not be empty.
pub open spec fn parse_kv(s: Seq<char>, n: nat) -> Result<(Seq<char>, Seq<char>), Seq<char>> {
    let t = trim(s);
    let e = next_index(t, 0, '=');
    if e >= t.len() {
        Err(line_tag(n) + "expected KEY = VALUE, got: "@ + t)
    } else {
        let key = trim(t.subrange(0, e));
        let val = trim(t.subrange(e + 1, t.len() as int));
        if key.len() == 0 {
            Err(line_tag(n) + "empty key in env directive"@)
        } else {
            Ok((key, val))
        }
    }
}

/// The first word of a line (the line itself when it has none).
pub open spec fn first_word(line: Seq<char>) -> Seq<char> {
    if words(line).len() > 0 {
        words(line)[0]
    } else {
        line
    }
}

pub open spec fn top_directives() -> Seq<Seq<char>> {
    seq!["env"@, "default"@, "rule"@, "include"@]
}

pub open spec fn rule_directives() -> Seq<Seq<char>> {
    seq!["deps"@, "inputs"@, "outputs"@, "env"@, "run"@, "description"@, "phony"@]
}

/// `s` after the prefix `p`.
pub open spec fn after(s: Seq<char>, p: Seq<char>) -> Seq<char> {
    s.subrange(p.len() as int, s.len() as int)
}

/// The ASCII lower-case form of `c`.
pub open spec fn ascii_lower(c: char) -> char {
    if 'A' <= c && c <= 'Z' {
        ((c as u32) + 32) as char
    } else {
        c
    }
}

/// Whether `s` is `true` in any mix of ASCII cases.
pub open spec fn is_true_word(s: Seq<char>) -> bool {
    s.len() == 4 && forall|i: int| 0 <= i < 4 ==> ascii_lower(#[trigger] s[i]) == "true"@[i]
}

/// A non-indented line: a global directive or the start of a rule block.
pub open spec fn top_level(p: Pending, line: Seq<char>, n: nat) -> (Pending, Option<Seq<char>>) {
    if line == "rule"@ {
        (p, Some(line_tag(n) + "rule has no name"@))
    } else if has_prefix(line, "rule "@) {
        let name = trim(after(line, "rule "@));
        if name.len() == 0 {
            (p, Some(line_tag(n) + "rule has no name"@))
        } else {
            (Pending { items: p.items, cur: Some(new_rule(name)) }, None)
        }
    } else if has_prefix(line, "env "@) {
        match parse_kv(after(line, "env "@), n) {
            Ok((k, v)) => (Pending { items: p.items.push(StatementView::Env(k, v)), cur: p.cur }, None),
            Err(e) => (p, Some(e)),
        }
    } else if has_prefix(line, "default "@) {
        (
            Pending {
                items: p.items.push(StatementView::Default(trim(after(line, "default "@)))),
                cur: p.cur,
            },
            None,
        )
    } else if line == "include"@ {
        (p, Some(line_tag(n) + "include has no path"@))
    } else if has_prefix(line, "include "@) {
        let path = trim(after(line, "include "@));
        if path.len() == 0 {
            (p, Some(line_tag(n) + "include has no path"@))
        } else {
            (Pending { items: p.items.push(StatementView::Include(path, n)), cur: p.cur }, None)
        }
    } else {
        (
            p,
            Some(
                hinted(
                    line_tag(n) + "unexpected top-level directive: "@ + line,
                    first_word(line),
                    top_directives(),
                ),
            ),
        )
    }
}

/// The dependencies listed in `s`: its words, where the single word `[]`
/// stands for an empty list.
pub open spec fn dep_list(s: Seq<char>) -> Seq<Seq<char>> {
    if words(s) == seq!["[]"@] {
        Seq::empty()
    } else {
        words(s)
    }
}

/// An indented line inside the block of rule `r`.
pub open spec fn rule_line(r: RuleView, line: Seq<char>, n: nat) -> Result<RuleView, Seq<char>> {
    if has_prefix(line, "deps "@) {
        Ok(RuleView { deps: dep_list(after(line, "deps "@)), ..r })
    } else if has_prefix(line, "inputs "@) {
        Ok(RuleView { inputs: words(after(line, "inputs "@)), ..r })
    } else if has_prefix(line, "outputs "@) {
        Ok(RuleView { outputs: words(after(line, "outputs "@)), ..r })
    } else if has_prefix(line, "env "@) {
        match parse_kv(after(line, "env "@), n) {
            Ok((k, v)) => Ok(RuleView { env: r.env.insert(k, v), ..r }),
            Err(e) => Err(e),
        }
    } else if has_prefix(line, "run "@) {
        Ok(RuleView { commands: r.commands.push(after(line, "run "@)), ..r })
    } else if has_prefix(line, "description "@) {
        Ok(RuleView { description: trim(after(line, "description "@)), ..r })
    } else if has_prefix(line, "phony "@) {
        Ok(RuleView { phony: is_true_word(trim(after(line, "phony "@))), ..r })
    } else {
        Err(
            hinted(
                line_tag(n) + "unknown rule directive: "@ + line,
                first_word(line),
                rule_directives(),
            ),
        )
    }
}

/// The effect of line number `n`, whose text is `raw`.
pub open spec fn scan_line(p: Pending, raw: Seq<char>, n: nat) -> (Pending, Option<Seq<char>>) {
    let line = trim(raw);
    if line.len() == 0 || line[0] == '#' {
        (p, None)
    } else if raw[0] != ' ' && raw[0] != '\t' {
        top_level(flush(p, n), line, n)
    } else {
        match p.cur {
            None => (p, Some(line_tag(n) + "indented line outside of a rule block"@)),
            Some(r) => match rule_line(r, line, n) {
                Ok(r2) => (Pending { items: p.items, cur: Some(r2) }, None),
                Err(e) => (p, Some(e)),
            },
        }
    }
}

/// The statements of lines `ls[i..]` (numbered from `i + 1`), read after
/// `p`, and the first syntax error, if any; reading stops at that error.
pub open spec fn scan_lines(ls: Seq<Seq<char>>, i: nat, p: Pending) -> (
    Seq<StatementView>,
    Option<Seq<char>>,
)
    decreases ls.len() - i,
{
    if i >= ls.len() {
        (flush(p, ls.len()).items, None)
    } else {
        let (p2, e) = scan_line(p, ls[i as int], i + 1);
        match e {
            Some(m) => (p2.items, Some(m)),
            None => scan_lines(ls, i + 1, p2),
        }
    }
}

/// The statements of a Buildfile text and its first syntax error, if any.
pub open spec fn scanned(input: Seq<char>) -> (Seq<StatementView>, Option<Seq<char>>) {
    scan_lines(lines(input), 0, Pending { items: seq![], cur: None })
}

/// The statements of a Buildfile text, in order, and the syntax error that
/// stopped the reading, if any.
pub struct Scan {
    pub statements: Vec<Statement>,
    pub error: Option<String>,
}

pub open spec fn opt_str(o: Option<String>) -> Option<Seq<char>> {
    match o {
        Some(s) => Some(s@),
        None => None,
    }
}

/// `"line N: "` for line `n`.
fn line_tag_string(n: usize) -> (r: String)
    ensures
        r@ == line_tag(n as nat),
{
    let mut r = String::new();
    r.append("line ");
    let d = decimal_vec(n as u128);
    push_chars(&mut r, &d);
    r.append(": ");
    r
}

/// `s` after its first `p.len()` characters.
fn rest_after(s: &Vec<char>, p: &Vec<char>) -> (r: Vec<char>)
    requires
        p@.len() <= s@.len(),
    ensures
        r@ == after(s@, p@),
{
    slice_vec(s, p.len(), s.len())
}

/// Parses `KEY = VALUE` on line `n`.
fn parse_kv_exec(s: &Vec<char>, n: usize) -> (r: Result<(String, String), String>)
    ensures
        match (r, parse_kv(s@, n as nat)) {
            (Ok((k, v)), Ok((k2, v2))) => k@ == k2 && v@ == v2,
            (Err(e), Err(e2)) => e@ == e2,
            _ => false,
        },
{
    let t = trim_vec(s);
    proof {
        lemma_next_index(t@, 0, '=');
    }
    let e = find_char(&t, 0, '=');
    if e >= t.len() {
        let mut m = line_tag_string(n);
        m.append("expected KEY = VALUE, got: ");
        push_chars(&mut m, &t);
        return Err(m);
    }
    let key = trim_vec(&slice_vec(&t, 0, e));
    let val = trim_vec(&slice_vec(&t, e + 1, t.len()));
    if key.len() == 0 {
        let mut m = line_tag_string(n);
        m.append("empty key in env directive");
        return Err(m);
    }
    Ok((string_from(&key), string_from(&val)))
}

/// The first word of `line`, or `line` when it has none.
fn first_word_exec(line: &Vec<char>) -> (r: String)
    ensures
        r@ == first_word(line@),
{
    let w = split_words(line);
    if w.len() > 0 {
        string_from(&w[0])
    } else {
        string_from(line)
    }
}

/// Whether `s` spells `true` ignoring ASCII case.
fn is_true_exec(s: &Vec<char>) -> (r: bool)
    ensures
        r == is_true_word(s@),
{
    let t = chars_of("true");
    if s.len() != 4 || t.len() != 4 {
        proof {
            reveal_strlit("true");
        }
        return false;
    }
    let mut i: usize = 0;
    while i < 4
        invariant
            i <= 4,
            s@.len() == 4,
            t@ == "true"@,
            t@.len() == 4,
            forall|j: int| 0 <= j < i ==> ascii_lower(#[trigger] s@[j]) == "true"@[j],
        decreases 4 - i,
    {
        let c = s[i];
        let l = if 'A' <= c && c <= 'Z' {
            ((c as u32) + 32) as u8 as char
        } else {
            c
        };
        assert(l == ascii_lower(c)) by {
            if 'A' <= c && c <= 'Z' {
                assert((((c as u32) + 32) as u8 as char) == (((c as u32) + 32) as char));
            }
        };
        if l != t[i] {
            return false;
        }
        i += 1;
    }
    true
}


/// The error for a line the candidates cannot name: `base` with a hint for
/// the line's first word.
fn hint_error(base: &String, line: &Vec<char>, top: bool) -> (r: String)
    ensures
        r@ == hinted(
            base@,
            first_word(line@),
            if top {
                top_directives()
            } else {
                rule_directives()
            },
        ),
{
    let tok = first_word_exec(line);
    if top {
        let cands: [&str; 4] = ["env", "default", "rule", "include"];
        assert(cands@.map_values(|c: &str| c@) =~= top_directives());
        with_hint(base.as_str(), tok.as_str(), &cands)
    } else {
        let cands: [&str; 7] = ["deps", "inputs", "outputs", "env", "run", "description", "phony"];
        assert(cands@.map_values(|c: &str| c@) =~= rule_directives());
        with_hint(base.as_str(), tok.as_str(), &cands)
    }
}

/// Applies an indented line to the rule being read.
fn rule_line_exec(r: &mut Rule, line: &Vec<char>, n: usize) -> (e: Option<String>)
    ensures
        match rule_line(old(r)@, line@, n as nat) {
            Ok(r2) => e is None && final(r)@ == r2,
            Err(m) => e is Some && e->0@ == m && final(r)@ == old(r)@,
        },
{
    let p = chars_of("deps ");
    if starts_with(line, &p) {
        let w = split_words(&rest_after(line, &p));
        let empty = chars_of("[]");
        if w.len() == 1 && chars_eq(&w[0], &empty) {
            proof {
                assert(words(after(line@, "deps "@)) =~= seq!["[]"@]);
            }
            r.deps = Vec::new();
            assert(strs(r.deps@) =~= dep_list(after(line@, "deps "@)));
        } else {
            r.deps = strings_of(&w);
            proof {
                if words(after(line@, "deps "@)) == seq!["[]"@] {
                    assert(w@[0]@ == "[]"@);
                }
            }
            assert(strs(r.deps@) =~= dep_list(after(line@, "deps "@)));
        }
        return None;
    }
    let p = chars_of("inputs ");
    if starts_with(line, &p) {
        let w = split_words(&rest_after(line, &p));
        r.inputs = strings_of(&w);
        assert(strs(r.inputs@) =~= words(after(line@, "inputs "@)));
        return None;
    }
    let p = chars_of("outputs ");
    if starts_with(line, &p) {
        let w = split_words(&rest_after(line, &p));
        r.outputs = strings_of(&w);
        assert(strs(r.outputs@) =~= words(after(line@, "outputs "@)));
        return None;
    }
    let p = chars_of("env ");
    if starts_with(line, &p) {
        match parse_kv_exec(&rest_after(line, &p), n) {
            Ok((k, v)) => {
                r.env.insert(k, v);
                return None;
            },
            Err(m) => {
                return Some(m);
            },
        }
    }
    let p = chars_of("run ");
    if starts_with(line, &p) {
        let c = string_from(&rest_after(line, &p));
        r.commands.push(c);
        assert(strs(r.commands@) =~= strs(old(r).commands@).push(after(line@, "run "@)));
        return None;
    }
    let p = chars_of("description ");
    if starts_with(line, &p) {
        r.description = string_from(&trim_vec(&rest_after(line, &p)));
        return None;
    }
    let p = chars_of("phony ");
    if starts_with(line, &p) {
        r.phony = is_true_exec(&trim_vec(&rest_after(line, &p)));
        return None;
    }
    let mut base = line_tag_string(n);
    base.append("unknown rule directive: ");
    push_chars(&mut base, line);
    Some(hint_error(&base, line, false))
}

pub open spec fn pending_of(items: Seq<Statement>, cur: Option<Rule>) -> Pending {
    Pending { items: stmts(items), cur: opt_rule(cur) }
}

/// Ends the open rule block, if any, at line `n`.
fn flush_exec(cur: &mut Option<Rule>, items: &mut Vec<Statement>, n: usize)
    ensures
        pending_of(final(items)@, *final(cur)) == flush(pending_of(old(items)@, *old(cur)), n as nat),
{
    match cur.take() {
        Some(r) => {
            items.push(Statement::Rule(r, n));
            assert(stmts(items@) =~= stmts(old(items)@).push(items@.last()@));
        },
        None => {},
    }
}

/// Applies a non-indented line.
fn top_level_exec(cur: &mut Option<Rule>, items: &mut Vec<Statement>, line: &Vec<char>, n: usize) -> (e:
    Option<String>)
    ensures
        ({
            let (p2, e2) = top_level(pending_of(old(items)@, *old(cur)), line@, n as nat);
            pending_of(final(items)@, *final(cur)) == p2 && opt_str(e) == e2
        }),
{
    let ghost p0 = pending_of(old(items)@, *old(cur));
    if chars_eq(line, &chars_of("rule")) {
        let mut m = line_tag_string(n);
        m.append("rule has no name");
        return Some(m);
    }
    let p = chars_of("rule ");
    if starts_with(line, &p) {
        let name = trim_vec(&rest_after(line, &p));
        if name.len() == 0 {
            let mut m = line_tag_string(n);
            m.append("rule has no name");
            return Some(m);
        }
        *cur = Some(Rule::new(string_from(&name)));
        return None;
    }
    let p = chars_of("env ");
    if starts_with(line, &p) {
        match parse_kv_exec(&rest_after(line, &p), n) {
            Ok((k, v)) => {
                items.push(Statement::Env(k, v));
                assert(stmts(items@) =~= stmts(old(items)@).push(items@.last()@));
                return None;
            },
            Err(m) => {
                return Some(m);
            },
        }
    }
    let p = chars_of("default ");
    if starts_with(line, &p) {
        let t = string_from(&trim_vec(&rest_after(line, &p)));
        items.push(Statement::Default(t));
        assert(stmts(items@) =~= stmts(old(items)@).push(items@.last()@));
        return None;
    }
    if chars_eq(line, &chars_of("include")) {
        let mut m = line_tag_string(n);
        m.append("include has no path");
        return Some(m);
    }
    let p = chars_of("include ");
    if starts_with(line, &p) {
        let path = trim_vec(&rest_after(line, &p));
        if path.len() == 0 {
            let mut m = line_tag_string(n);
            m.append("include has no path");
            return Some(m);
        }
        items.push(Statement::Include(string_from(&path), n));
        assert(stmts(items@) =~= stmts(old(items)@).push(items@.last()@));
        return None;
    }
    let mut base = line_tag_string(n);
    base.append("unexpected top-level directive: ");
    push_chars(&mut base, line);
    Some(hint_error(&base, line, true))
}

/// Applies line number `n`, whose text is `raw`.
fn scan_line_exec(cur: &mut Option<Rule>, items: &mut Vec<Statement>, raw: &Vec<char>, n: usize) -> (e:
    Option<String>)
    ensures
        ({
            let (p2, e2) = scan_line(pending_of(old(items)@, *old(cur)), raw@, n as nat);
            pending_of(final(items)@, *final(cur)) == p2 && opt_str(e) == e2
        }),
{
    let line = trim_vec(raw);
    proof {
        lemma_trim_len(raw@);
    }
    if line.len() == 0 || line[0] == '#' {
        return None;
    }
    if raw[0] != ' ' && raw[0] != '\t' {
        flush_exec(cur, items, n);
        return top_level_exec(cur, items, &line, n);
    }
    if cur.is_none() {
        let mut m = line_tag_string(n);
        m.append("indented line outside of a rule block");
        return Some(m);
    }
    match cur {
        Some(r) => rule_line_exec(r, &line, n),
        None => None,
    }
}


pub open spec fn scan_view(r: Scan) -> (Seq<StatementView>, Option<Seq<char>>) {
    (stmts(r.statements@), opt_str(r.error))
}

/// Reads a Buildfile text into its statements, stopping at the first
/// syntax error.
#[verifier::spinoff_prover]
pub fn scan(input: &str) -> (r: Scan)
    ensures
        scan_view(r) == scanned(input@),
{
    let c = chars_of(input);
    let ghost ls = lines(c@);
    let ghost p0 = Pending { items: seq![], cur: None };
    let mut items: Vec<Statement> = Vec::new();
    let mut cur: Option<Rule> = None;
    assert(pending_of(items@, cur) == p0) by {
        assert(stmts(items@) =~= seq![]);
    }
    assert(ls.subrange(0, ls.len() as int) =~= ls);
    let mut pos: usize = 0;
    let mut i: usize = 0;
    while pos < c.len()
        invariant
            c@ == input@,
            c@.len() <= isize::MAX,
            ls == lines(c@),
            i <= pos <= c@.len(),
            i <= ls.len(),
            lines_from(c@, pos as int) == ls.subrange(i as int, ls.len() as int),
            scan_lines(ls, i as nat, pending_of(items@, cur)) == scanned(c@),
        decreases c@.len() - pos,
    {
        let k = find_char(&c, pos, '\n');
        let mut raw = if k < c.len() {
            slice_vec(&c, pos, k)
        } else {
            slice_vec(&c, pos, c.len())
        };
        if k < c.len() && raw.len() > 0 && raw[raw.len() - 1] == '\r' {
            raw.pop();
        }
        proof {
            let rest = ls.subrange(i as int, ls.len() as int);
            if k < c@.len() {
                assert(raw@ =~= strip_cr(c@.subrange(pos as int, k as int)));
                assert(rest =~= seq![raw@] + lines_from(c@, k + 1));
            } else {
                assert(rest =~= seq![raw@]);
            }
            assert(rest[0] == raw@);
            assert(ls[i as int] == raw@);
        }
        let ghost p = pending_of(items@, cur);
        let e = scan_line_exec(&mut cur, &mut items, &raw, i + 1);
        if e.is_some() {
            return Scan { statements: items, error: e };
        }
        proof {
            let rest = ls.subrange(i as int, ls.len() as int);
            if k < c@.len() {
                assert(ls.subrange(i + 1, ls.len() as int) =~= rest.subrange(1, rest.len() as int));
            } else {
                assert(ls.subrange(i + 1, ls.len() as int) =~= rest.subrange(1, rest.len() as int));
                assert(lines_from(c@, c@.len() as int) =~= seq![]);
            }
        }
        i = i + 1;
        pos = if k < c.len() {
            k + 1
        } else {
            c.len()
        };
    }
    assert(ls.subrange(i as int, ls.len() as int).len() == 0);
    flush_exec(&mut cur, &mut items, i);
    Scan { statements: items, error: None }
}


/// A parsed Buildfile: its rules in the order they were defined, its global
/// environment and its default target.
#[derive(Debug, Clone)]
pub struct BuildFile {
    pub rules: Vec<Rule>,
    pub global_env: EnvMap,
    pub default_target: Option<String>,
}

pub struct BuildFileView {
    pub rules: Seq<RuleView>,
    pub env: Map<Seq<char>, Seq<char>>,
    pub default_target: Option<Seq<char>>,
}

pub open spec fn rule_views(v: Seq<Rule>) -> Seq<RuleView> {
    v.map_values(|r: Rule| r@)
}

impl View for BuildFile {
    type V = BuildFileView;

    open spec fn view(&self) -> BuildFileView {
        BuildFileView {
            rules: rule_views(self.rules@),
            env: self.global_env.spec_map(),
            default_target: opt_str(self.default_target),
        }
    }
}

/// No two rules share a name.
pub open spec fn names_distinct(rules: Seq<RuleView>) -> bool {
    forall|i: int, j: int|
        0 <= i < rules.len() && 0 <= j < rules.len() && i != j ==> #[trigger] rules[i].name
            != #[trigger] rules[j].name
}

/// Some rule is named `name`.
pub open spec fn has_rule(rules: Seq<RuleView>, name: Seq<char>) -> bool {
    exists|i: int| 0 <= i < rules.len() && #[trigger] rules[i].name == name
}

pub open spec fn empty_build() -> BuildFileView {
    BuildFileView { rules: seq![], env: Map::empty(), default_target: None }
}

/// The effect of one statement. Without a file system an `include` cannot
/// be followed and is an error.
pub open spec fn apply_stmt(b: BuildFileView, s: StatementView) -> Result<BuildFileView, Seq<char>> {
    match s {
        StatementView::Rule(r, n) => if has_rule(b.rules, r.name) {
            Err(line_tag(n) + "duplicate rule '"@ + r.name + "'"@)
        } else {
            Ok(BuildFileView { rules: b.rules.push(r), ..b })
        },
        StatementView::Env(k, v) => Ok(BuildFileView { env: b.env.insert(k, v), ..b }),
        StatementView::Default(t) => Ok(BuildFileView { default_target: Some(t), ..b }),
        StatementView::Include(_, n) => Err(
            line_tag(n) + "include requires a file path; use parse_file"@,
        ),
    }
}

/// The effect of statements applied in order, up to the first error.
pub open spec fn apply_all(b: BuildFileView, ss: Seq<StatementView>) -> Result<
    BuildFileView,
    Seq<char>,
>
    decreases ss.len(),
{
    if ss.len() == 0 {
        Ok(b)
    } else {
        match apply_all(b, ss.drop_last()) {
            Ok(b2) => apply_stmt(b2, ss.last()),
            Err(e) => Err(e),
        }
    }
}

/// The result of parsing a Buildfile text: the first error in line order
/// (a syntax error, a duplicate rule, an `include`), or the description,
/// which must hold at least one rule.
pub open spec fn parsed(input: Seq<char>) -> Result<BuildFileView, Seq<char>> {
    let (items, err) = scanned(input);
    match apply_all(empty_build(), items) {
        Err(e) => Err(e),
        Ok(b) => match err {
            Some(e) => Err(e),
            None => if b.rules.len() == 0 {
                Err("Buildfile contains no rules"@)
            } else {
                Ok(b)
            },
        },
    }
}

impl BuildFile {
    /// A description with no rules, no settings and no default target.
    pub fn empty() -> (r: BuildFile)
        ensures
            r@ == empty_build(),
    {
        let r = BuildFile { rules: Vec::new(), global_env: EnvMap::new(), default_target: None };
        assert(rule_views(r.rules@) =~= seq![]);
        r
    }

    /// The index of the rule named `name`.
    pub fn find_rule_chars(&self, name: &String) -> (r: Option<usize>)
        ensures
            match r {
                Some(i) => i < self.rules@.len() && self@.rules[i as int].name == name@,
                None => !has_rule(self@.rules, name@),
            },
    {
        let mut i: usize = 0;
        while i < self.rules.len()
            invariant
                i <= self.rules@.len(),
                forall|j: int| 0 <= j < i ==> #[trigger] self.rules@[j].name@ != name@,
            decreases self.rules@.len() - i,
        {
            if self.rules[i].name == *name {
                return Some(i);
            }
            i += 1;
        }
        assert forall|j: int| 0 <= j < self@.rules.len() implies #[trigger] self@.rules[j].name
            != name@ by {
            assert(self.rules@[j].name@ != name@);
        }
        None
    }

    /// The rule named `name`.
    pub fn rule(&self, name: &str) -> (r: Option<&Rule>)
        ensures
            match r {
                Some(rule) => has_rule(self@.rules, name@) && rule@.name == name@ && exists|i: int|
                    0 <= i < self.rules@.len() && self.rules@[i] == *rule,
                None => !has_rule(self@.rules, name@),
            },
    {
        let n = name.to_owned();
        match self.find_rule_chars(&n) {
            Some(i) => Some(&self.rules[i]),
            None => None,
        }
    }

    /// Whether a rule is named `name`.
    pub fn contains_rule(&self, name: &str) -> (r: bool)
        ensures
            r == has_rule(self@.rules, name@),
    {
        self.rule(name).is_some()
    }

    /// Applies one statement. An `include` is refused here: following one
    /// needs the file system.
    pub fn apply(&mut self, s: &Statement) -> (r: Result<(), String>)
        ensures
            match apply_stmt(old(self)@, s@) {
                Ok(b) => r is Ok && final(self)@ == b,
                Err(e) => r is Err && r->Err_0@ == e && final(self)@ == old(self)@,
            },
    {
        match s {
            Statement::Rule(rule, n) => {
                match self.find_rule_chars(&rule.name) {
                    Some(_) => {
                        let mut m = line_tag_string(*n);
                        m.append("duplicate rule '");
                        m.append(rule.name.as_str());
                        m.append("'");
                        Err(m)
                    },
                    None => {
                        self.rules.push(rule.copy());
                        assert(rule_views(self.rules@) =~= rule_views(old(self).rules@).push(
                            rule@,
                        ));
                        Ok(())
                    },
                }
            },
            Statement::Env(k, v) => {
                self.global_env.insert(k.clone(), v.clone());
                Ok(())
            },
            Statement::Default(t) => {
                self.default_target = Some(t.clone());
                Ok(())
            },
            Statement::Include(_, n) => {
                let mut m = line_tag_string(*n);
                m.append("include requires a file path; use parse_file");
                Err(m)
            },
        }
    }
}

/// Applying statements keeps rule names distinct.
pub proof fn lemma_apply_distinct(b: BuildFileView, ss: Seq<StatementView>)
    requires
        names_distinct(b.rules),
    ensures
        apply_all(b, ss) matches Ok(b2) ==> names_distinct(b2.rules),
    decreases ss.len(),
{
    if ss.len() > 0 {
        lemma_apply_distinct(b, ss.drop_last());
        if let Ok(b2) = apply_all(b, ss.drop_last()) {
            if let StatementView::Rule(r, n) = ss.last() {
                if !has_rule(b2.rules, r.name) {
                    let rs = b2.rules.push(r);
                    assert forall|i: int, j: int|
                        0 <= i < rs.len() && 0 <= j < rs.len() && i != j implies #[trigger] rs[i].name
                        != #[trigger] rs[j].name by {
                        if i == rs.len() - 1 {
                            assert(b2.rules[j].name != r.name);
                        } else if j == rs.len() - 1 {
                            assert(b2.rules[i].name != r.name);
                        }
                    }
                }
            }
        }
    }
}

/// The description, or an error when it holds no rule.
pub fn finish_parse(b: BuildFile) -> (r: Result<BuildFile, String>)
    ensures
        match r {
            Ok(b2) => b@.rules.len() > 0 && b2@ == b@,
            Err(e) => b@.rules.len() == 0 && e@ == "Buildfile contains no rules"@,
        },
{
    if b.rules.len() == 0 {
        return Err("Buildfile contains no rules".to_owned());
    }
    Ok(b)
}

/// Parses a Buildfile text (without following `include`s).
pub fn parse(input: &str) -> (r: Result<BuildFile, String>)
    ensures
        match (r, parsed(input@)) {
            (Ok(b), Ok(v)) => b@ == v && names_distinct(v.rules),
            (Err(e), Err(m)) => e@ == m,
            _ => false,
        },
{
    let sc = scan(input);
    let mut b = BuildFile::empty();
    let ghost ss = stmts(sc.statements@);
    let mut i: usize = 0;
    assert(ss.take(0) =~= seq![]);
    while i < sc.statements.len()
        invariant
            i <= sc.statements@.len(),
            ss == stmts(sc.statements@),
            scan_view(sc) == scanned(input@),
            apply_all(empty_build(), ss.take(i as int)) == Ok::<BuildFileView, Seq<char>>(b@),
        decreases sc.statements@.len() - i,
    {
        let ghost b0 = b@;
        let res = b.apply(&sc.statements[i]);
        assert(ss.take(i + 1).drop_last() =~= ss.take(i as int));
        assert(ss.take(i + 1).last() == sc.statements@[i as int]@);
        assert(apply_all(empty_build(), ss.take(i + 1)) == apply_stmt(b0, sc.statements@[i as int]@));
        match res {
            Err(e) => {
                proof {
                    lemma_apply_prefix_err(empty_build(), ss, i + 1);
                    assert(scanned(input@).0 == ss);
                }
                return Err(e);
            },
            Ok(()) => {},
        }
        i += 1;
    }
    assert(ss.take(i as int) =~= ss);
    proof {
        lemma_apply_distinct(empty_build(), ss);
    }
    match sc.error {
        Some(e) => Err(e),
        None => finish_parse(b),
    }
}

/// Applies the statements of a Buildfile text to an existing description,
/// in line order, stopping at the first error: a duplicate rule (also one
/// already in `bf`), an `include`, or a syntax error after the statements
/// that precede it. On success `bf` is the description with every
/// statement applied; on failure it holds the statements applied before
/// the error.
pub fn parse_into(input: &str, bf: &mut BuildFile) -> (r: Result<(), String>)
    ensures
        match apply_all(old(bf)@, scanned(input@).0) {
            Err(e) => r is Err && r->Err_0@ == e,
            Ok(b) => final(bf)@ == b && match scanned(input@).1 {
                Some(e) => r is Err && r->Err_0@ == e,
                None => r is Ok,
            },
        },
        r is Err ==> exists|k: int|
            0 <= k <= scanned(input@).0.len() && apply_all(old(bf)@, #[trigger] scanned(input@).0.take(k)) == Ok::<
                BuildFileView,
                Seq<char>,
            >(final(bf)@),
{
    let sc = scan(input);
    let ghost b_start = bf@;
    let ghost ss = stmts(sc.statements@);
    let mut i: usize = 0;
    assert(ss.take(0) =~= seq![]);
    while i < sc.statements.len()
        invariant
            i <= sc.statements@.len(),
            ss == stmts(sc.statements@),
            scan_view(sc) == scanned(input@),
            b_start == old(bf)@,
            apply_all(b_start, ss.take(i as int)) == Ok::<BuildFileView, Seq<char>>(bf@),
        decreases sc.statements@.len() - i,
    {
        let ghost b0 = bf@;
        let res = bf.apply(&sc.statements[i]);
        assert(ss.take(i + 1).drop_last() =~= ss.take(i as int));
        assert(ss.take(i + 1).last() == sc.statements@[i as int]@);
        assert(apply_all(b_start, ss.take(i + 1)) == apply_stmt(b0, sc.statements@[i as int]@));
        match res {
            Err(e) => {
                proof {
                    lemma_apply_prefix_err(b_start, ss, i + 1);
                    assert(scanned(input@).0 == ss);
                    assert(apply_all(b_start, scanned(input@).0.take(i as int)) == Ok::<BuildFileView, Seq<char>>(bf@));
                }
                return Err(e);
            },
            Ok(()) => {},
        }
        i += 1;
    }
    assert(ss.take(i as int) =~= ss);
    proof {
        assert(scanned(input@).0 == ss);
        assert(apply_all(b_start, scanned(input@).0.take(i as int)) == Ok::<BuildFileView, Seq<char>>(bf@));
    }
    match sc.error {
        Some(e) => Err(e),
        None => Ok(()),
    }
}

/// The position of the first `include` statement at or after `from`, or
/// the number of statements when there is none.
pub open spec fn next_include(ss: Seq<StatementView>, from: int) -> int
    decreases ss.len() - from,
{
    if from < 0 || from >= ss.len() {
        ss.len() as int
    } else if ss[from] is Include {
        from
    } else {
        next_include(ss, from + 1)
    }
}

proof fn lemma_next_include(ss: Seq<StatementView>, from: int)
    requires
        0 <= from <= ss.len(),
    ensures
        from <= next_include(ss, from) <= ss.len(),
        forall|t: int| from <= t < next_include(ss, from) ==> !(#[trigger] ss[t] is Include),
        next_include(ss, from) < ss.len() ==> ss[next_include(ss, from)] is Include,
    decreases ss.len() - from,
{
    if from < ss.len() && !(ss[from] is Include) {
        lemma_next_include(ss, from + 1);
    }
}

impl BuildFile {
    /// Applies the statements `sts` from position `from` on, in order, up to
    /// the next `include`, whose position it returns (`None` when no
    /// `include` follows), or up to the first error. The caller reads an
    /// included file and goes on after its position.
    pub fn apply_until_include(&mut self, sts: &Vec<Statement>, from: usize) -> (r: Result<Option<usize>, String>)
        requires
            from <= sts@.len(),
        ensures
            ({
                let ss = stmts(sts@);
                let k = next_include(ss, from as int);
                match apply_all(old(self)@, ss.subrange(from as int, k)) {
                    Ok(b) => final(self)@ == b && r == Ok::<Option<usize>, String>(
                        if k < ss.len() {
                            Some(k as usize)
                        } else {
                            None
                        },
                    ),
                    Err(e) => r is Err && r->Err_0@ == e,
                }
            }),
    {
        let ghost ss = stmts(sts@);
        let ghost b_start = self@;
        let ghost k = next_include(ss, from as int);
        proof {
            lemma_next_include(ss, from as int);
        }
        let mut i: usize = from;
        assert(ss.subrange(from as int, from as int) =~= seq![]);
        while i < sts.len()
            invariant
                from <= i <= sts@.len(),
                ss == stmts(sts@),
                k == next_include(ss, from as int),
                from <= k <= ss.len(),
                forall|t: int| from <= t < k ==> !(#[trigger] ss[t] is Include),
                k < ss.len() ==> ss[k] is Include,
                i <= k,
                b_start == old(self)@,
                apply_all(b_start, ss.subrange(from as int, i as int)) == Ok::<BuildFileView, Seq<char>>(self@),
            decreases sts@.len() - i,
        {
            if let Statement::Include(_, _) = &sts[i] {
                assert(ss[i as int] is Include);
                assert(i == k) by {
                    if i < k {
                        assert(!(ss[i as int] is Include));
                    }
                }
                return Ok(Some(i));
            }
            assert(!(ss[i as int] is Include));
            let ghost b0 = self@;
            let res = self.apply(&sts[i]);
            let ghost sub = ss.subrange(from as int, i + 1);
            assert(sub.drop_last() =~= ss.subrange(from as int, i as int));
            assert(sub.last() == sts@[i as int]@);
            assert(apply_all(b_start, sub) == apply_stmt(b0, sts@[i as int]@));
            match res {
                Err(e) => {
                    proof {
                        assert(i < k) by {
                            if i >= k {
                                assert(k < ss.len());
                            }
                        }
                        assert(ss.subrange(from as int, k).take(i + 1 - from) =~= sub);
                        lemma_apply_prefix_err(b_start, ss.subrange(from as int, k), i + 1 - from);
                    }
                    return Err(e);
                },
                Ok(()) => {},
            }
            i += 1;
        }
        Ok(None)
    }
}

/// An error in a prefix of the statements is the error of them all.
pub proof fn lemma_apply_prefix_err(b: BuildFileView, ss: Seq<StatementView>, k: int)
    requires
        0 <= k <= ss.len(),
        apply_all(b, ss.take(k)) is Err,
    ensures
        apply_all(b, ss) == apply_all(b, ss.take(k)),
    decreases ss.len() - k,
{
    if k < ss.len() {
        assert(ss.take(k + 1).drop_last() =~= ss.take(k));
        lemma_apply_prefix_err(b, ss, k + 1);
    } else {
        assert(ss.take(k) =~= ss);
    }
}


/// Whether no two strings of `v` are equal.
pub fn all_distinct(v: &Vec<String>) -> (r: bool)
    ensures
        r == strs(v@).no_duplicates(),
{
    let ghost s = strs(v@);
    let mut i: usize = 0;
    while i < v.len()
        invariant
            s == strs(v@),
            i <= v@.len(),
            forall|a: int, b: int| 0 <= a < b < s.len() && a < i ==> s[a] != s[b],
        decreases v@.len() - i,
    {
        let mut j: usize = i + 1;
        while j < v.len()
            invariant
                s == strs(v@),
                i < v@.len(),
                i + 1 <= j <= v@.len(),
                forall|a: int, b: int| 0 <= a < b < s.len() && a < i ==> s[a] != s[b],
                forall|b: int| i < b < j ==> s[i as int] != s[b],
            decreases v@.len() - j,
        {
            if v[i] == v[j] {
                assert(s[i as int] == s[j as int]);
                return false;
            }
            j += 1;
        }
        i += 1;
    }
    true
}

impl BuildFile {
    /// Whether no two rules share a name.
    pub fn has_distinct_names(&self) -> (r: bool)
        ensures
            r == names_distinct(self@.rules),
    {
        let mut i: usize = 0;
        while i < self.rules.len()
            invariant
                i <= self.rules@.len(),
                forall|a: int, b: int|
                    0 <= a < self@.rules.len() && 0 <= b < self@.rules.len() && a != b && (a < i || b < i) ==> #[trigger] self@.rules[a].name
                        != #[trigger] self@.rules[b].name,
            decreases self.rules@.len() - i,
        {
            let mut j: usize = 0;
            while j < self.rules.len()
                invariant
                    i < self.rules@.len(),
                    j <= self.rules@.len(),
                    forall|a: int, b: int|
                        0 <= a < self@.rules.len() && 0 <= b < self@.rules.len() && a != b && (a < i || b < i) ==> #[trigger] self@.rules[a].name
                            != #[trigger] self@.rules[b].name,
                    forall|b: int| 0 <= b < j && b != i ==> self@.rules[i as int].name != #[trigger] self@.rules[b].name,
                decreases self.rules@.len() - j,
            {
                if j != i && self.rules[i].name == self.rules[j].name {
                    assert(self@.rules[i as int].name == self@.rules[j as int].name);
                    return false;
                }
                j += 1;
            }
            i += 1;
        }
        true
    }
}

/// A Buildfile being read: the name it was included as, and the identity of
/// the file it resolved to (the caller numbers the distinct files it opens).
pub struct IncludeFrame {
    pub display: String,
    pub file: usize,
}

/// The Buildfiles being read, outermost first, and those read completely.
pub struct IncludeCtx {
    pub stack: Vec<IncludeFrame>,
    pub loaded: Vec<usize>,
}

/// What to do with an `include`.
#[derive(Debug)]
pub enum IncludeStep {
    /// The file is already being read: an error with this message.
    Cycle(String),
    /// The file was read completely before: nothing to do.
    AlreadyLoaded,
    /// Read the file.
    Load,
}

/// The position of the first frame reading `file`, or -1.
pub open spec fn frame_of(stack: Seq<IncludeFrame>, file: usize) -> int
    decreases stack.len(),
{
    if stack.len() == 0 {
        -1
    } else if frame_of(stack.drop_last(), file) >= 0 {
        frame_of(stack.drop_last(), file)
    } else if stack.last().file == file {
        stack.len() - 1
    } else {
        -1
    }
}

proof fn lemma_frame_of(stack: Seq<IncludeFrame>, file: usize)
    ensures
        -1 <= frame_of(stack, file) < stack.len(),
        frame_of(stack, file) >= 0 ==> stack[frame_of(stack, file)].file == file,
        forall|j: int| 0 <= j < stack.len() && (frame_of(stack, file) < 0 || j < frame_of(stack, file)) ==> #[trigger] stack[j].file != file,
    decreases stack.len(),
{
    if stack.len() > 0 {
        lemma_frame_of(stack.drop_last(), file);
        assert forall|j: int| 0 <= j < stack.len() - 1 implies stack.drop_last()[j] == #[trigger] stack[j] by {}
    }
}

/// The names of the frames.
pub open spec fn frame_names(stack: Seq<IncludeFrame>) -> Seq<Seq<char>> {
    stack.map_values(|f: IncludeFrame| f.display@)
}

/// The error for including `spec` while the frames from `pos` on are being
/// read: the chain of names from the file first read to `spec`.
pub open spec fn cycle_text(stack: Seq<IncludeFrame>, pos: int, spec: Seq<char>) -> Seq<char> {
    "include cycle: "@ + join(frame_names(stack).subrange(pos, stack.len() as int).push(spec), " -> "@)
}

impl IncludeCtx {
    /// Reading starts with the file `file`, shown as `display`.
    pub fn new(display: String, file: usize) -> (r: IncludeCtx)
        ensures
            r.stack@.len() == 1,
            r.stack@[0].display@ == display@,
            r.stack@[0].file == file,
            r.loaded@ == Seq::<usize>::empty(),
    {
        let mut stack: Vec<IncludeFrame> = Vec::new();
        stack.push(IncludeFrame { display, file });
        IncludeCtx { stack, loaded: Vec::new() }
    }

    /// Decides an `include spec` that resolved to `file`: a cycle when
    /// `file` is being read, nothing when it was read before, else a load.
    pub fn check(&self, spec: &str, file: usize) -> (r: IncludeStep)
        ensures
            match r {
                IncludeStep::Cycle(m) => frame_of(self.stack@, file) >= 0 && m@ == cycle_text(
                    self.stack@,
                    frame_of(self.stack@, file),
                    spec@,
                ),
                IncludeStep::AlreadyLoaded => frame_of(self.stack@, file) < 0 && self.loaded@.contains(file),
                IncludeStep::Load => frame_of(self.stack@, file) < 0 && !self.loaded@.contains(file),
            },
    {
        let ghost st = self.stack@;
        proof {
            lemma_frame_of(st, file);
        }
        let mut pos: usize = 0;
        while pos < self.stack.len()
            invariant
                st == self.stack@,
                pos <= st.len(),
                forall|j: int| 0 <= j < pos ==> #[trigger] st[j].file != file,
                -1 <= frame_of(st, file) < st.len(),
                frame_of(st, file) >= 0 ==> st[frame_of(st, file)].file == file,
                forall|j: int| 0 <= j < st.len() && (frame_of(st, file) < 0 || j < frame_of(st, file)) ==> #[trigger] st[j].file != file,
            decreases st.len() - pos,
        {
            if self.stack[pos].file == file {
                assert(frame_of(st, file) == pos);
                let ghost names = frame_names(st).subrange(pos as int, st.len() as int);
                let mut m = "include cycle: ".to_owned();
                let mut k: usize = pos;
                while k < self.stack.len()
                    invariant
                        st == self.stack@,
                        pos <= k <= st.len(),
                        names == frame_names(st).subrange(pos as int, st.len() as int),
                        m@ == "include cycle: "@ + join(names.take(k - pos), " -> "@) + (if k > pos {
                            " -> "@
                        } else {
                            seq![]
                        }),
                    decreases st.len() - k,
                {
                    let ghost before = names.take(k - pos);
                    m.append(self.stack[k].display.as_str());
                    proof {
                        let after = names.take(k - pos + 1);
                        assert(after.drop_last() =~= before);
                        assert(after.last() == st[k as int].display@);
                        if k == pos {
                            assert(before =~= seq![]);
                            assert(after =~= seq![st[k as int].display@]);
                        }
                    }
                    m.append(" -> ");
                    k += 1;
                }
                m.append(spec);
                proof {
                    let all = names.push(spec@);
                    assert(names.take(st.len() - pos) =~= names);
                    assert(all.drop_last() =~= names);
                    if names.len() == 0 {
                        assert(false);
                    }
                }
                return IncludeStep::Cycle(m);
            }
            pos += 1;
        }
        assert(frame_of(st, file) < 0);
        let mut i: usize = 0;
        while i < self.loaded.len()
            invariant
                frame_of(self.stack@, file) < 0,
                i <= self.loaded@.len(),
                forall|j: int| 0 <= j < i ==> self.loaded@[j] != file,
            decreases self.loaded@.len() - i,
        {
            if self.loaded[i] == file {
                assert(self.loaded@[i as int] == file);
                return IncludeStep::AlreadyLoaded;
            }
            i += 1;
        }
        IncludeStep::Load
    }

    /// Starts reading `file`, included as `spec`.
    pub fn enter(&mut self, spec: &str, file: usize)
        ensures
            final(self).stack@.len() == old(self).stack@.len() + 1,
            forall|j: int| 0 <= j < old(self).stack@.len() ==> #[trigger] final(self).stack@[j] == old(self).stack@[j],
            final(self).stack@.last().display@ == spec@,
            final(self).stack@.last().file == file,
            final(self).loaded@ == old(self).loaded@,
    {
        self.stack.push(IncludeFrame { display: spec.to_owned(), file });
    }

    /// Finishes reading the innermost file; when it was read without error
    /// it counts as loaded.
    pub fn leave(&mut self, ok: bool)
        requires
            old(self).stack@.len() > 0,
        ensures
            final(self).stack@ == old(self).stack@.drop_last(),
            final(self).loaded@ == if ok {
                old(self).loaded@.push(old(self).stack@.last().file)
            } else {
                old(self).loaded@
            },
    {
        let f = self.stack.pop();
        match f {
            Some(frame) => {
                if ok {
                    self.loaded.push(frame.file);
                }
            },
            None => {},
        }
    }
}

/// What `std::path::Path::parent` gives for the path `p`, as text.
pub uninterp spec fn path_parent(p: Seq<char>) -> Option<Seq<char>>;

/// What `std::path::Path::file_name` gives for the path `p`, as text.
pub uninterp spec fn path_file_name(p: Seq<char>) -> Option<Seq<char>>;

/// Calls `Path::parent` on the path `p`. The parent of a path given as text
/// is a prefix of that text, so the lossless conversion back to a string
/// keeps it exactly; the contract names the result and says nothing more.
#[verifier::external_body]
fn parent_of(p: &str) -> (r: Option<String>)
    ensures
        match r {
            Some(q) => path_parent(p@) == Some(q@),
            None => path_parent(p@) is None,
        },
{
    std::path::Path::new(p).parent().map(|q| q.to_string_lossy().into_owned())
}

/// Calls `Path::file_name` on the path `p`; the contract names the result.
#[verifier::external_body]
fn file_name_of(p: &str) -> (r: Option<String>)
    ensures
        match r {
            Some(q) => path_file_name(p@) == Some(q@),
            None => path_file_name(p@) is None,
        },
{
    std::path::Path::new(p).file_name().map(|q| q.to_string_lossy().into_owned())
}

/// The directory that relative paths resolve against, given the parent of
/// a Buildfile's path: that parent, or `.` when it is missing or empty.
pub fn dir_from_parent(parent: Option<String>) -> (r: String)
    ensures
        r@ == match parent {
            Some(q) => if q@.len() > 0 {
                q@
            } else {
                "."@
            },
            None => "."@,
        },
{
    match parent {
        Some(q) => {
            if !q.as_str().is_empty() {
                q
            } else {
                ".".to_owned()
            }
        },
        None => ".".to_owned(),
    }
}

/// How a Buildfile is named in messages, given its path and that path's
/// file name: the file name, or the whole path when it has none.
pub fn display_name(path: &str, file_name: Option<String>) -> (r: String)
    ensures
        r@ == match file_name {
            Some(n) => n@,
            None => path@,
        },
{
    match file_name {
        Some(n) => n,
        None => path.to_owned(),
    }
}

/// The directory that paths in the Buildfile `path` are relative to.
pub fn parent_dir(path: &str) -> (r: String)
    ensures
        r@ == match path_parent(path@) {
            Some(q) => if q.len() > 0 {
                q
            } else {
                "."@
            },
            None => "."@,
        },
{
    dir_from_parent(parent_of(path))
}

/// How the Buildfile `path` is named in messages.
pub fn path_display(path: &str) -> (r: String)
    ensures
        r@ == match path_file_name(path@) {
            Some(n) => n,
            None => path@,
        },
{
    display_name(path, file_name_of(path))
}

/// A text without `$` expands to itself, whatever the environment.
pub proof fn lemma_expand_plain(s: Seq<char>, env: Map<Seq<char>, Seq<char>>)
    requires
        !s.contains('$'),
    ensures
        expanded(s, env) == s,
{
    lemma_expand_plain_from(s, 0, env);
    assert(s.subrange(0, s.len() as int) =~= s);
}

proof fn lemma_expand_plain_from(s: Seq<char>, i: int, env: Map<Seq<char>, Seq<char>>)
    requires
        !s.contains('$'),
        0 <= i <= s.len(),
    ensures
        expand_from(s, i, env) == s.subrange(i, s.len() as int),
    decreases s.len() - i,
{
    if i < s.len() {
        assert(s[i] != '$');
        lemma_expand_plain_from(s, i + 1, env);
        assert(s.subrange(i, s.len() as int) =~= seq![s[i]] + s.subrange(i + 1, s.len() as int));
    } else {
        assert(s.subrange(i, s.len() as int) =~= seq![]);
    }
}

proof fn lemma_next_index_shift(p: Seq<char>, t: Seq<char>, j: int, c: char)
    requires
        0 <= j,
    ensures
        next_index(p + t, p.len() + j, c) == p.len() + next_index(t, j, c),
    decreases t.len() - j,
{
    if j < t.len() {
        assert((p + t)[p.len() + j] == t[j]);
        if t[j] != c {
            lemma_next_index_shift(p, t, j + 1, c);
        }
    }
}

proof fn lemma_name_end_shift(p: Seq<char>, t: Seq<char>, j: int)
    requires
        0 <= j,
    ensures
        name_end(p + t, p.len() + j) == p.len() + name_end(t, j),
    decreases t.len() - j,
{
    if j < t.len() {
        assert((p + t)[p.len() + j] == t[j]);
        if is_name_char(t[j]) {
            lemma_name_end_shift(p, t, j + 1);
        }
    }
}

/// Expanding from a position inside the part `t` of `p + t` does not look
/// at `p`.
proof fn lemma_expand_shift(p: Seq<char>, t: Seq<char>, i: int, env: Map<Seq<char>, Seq<char>>)
    requires
        0 <= i <= t.len(),
    ensures
        expand_from(p + t, p.len() + i, env) == expand_from(t, i, env),
    decreases t.len() - i,
{
    let s = p + t;
    let o = p.len() as int;
    if i < t.len() {
        assert(s[o + i] == t[i]);
        if i + 1 < t.len() {
            assert(s[o + i + 1] == t[i + 1]);
        }
        lemma_next_index_shift(p, t, i + 2, '}');
        lemma_name_end_shift(p, t, i + 1);
        if t[i] == '$' && i + 1 < t.len() && t[i + 1] == '{' && next_index(t, i + 2, '}') < t.len() {
            let e = next_index(t, i + 2, '}');
            lemma_next_index(t, i + 2, '}');
            assert(s.subrange(o + i + 2, o + e) =~= t.subrange(i + 2, e));
            lemma_expand_shift(p, t, e + 1, env);
        } else if t[i] == '$' && i + 1 < t.len() && name_end(t, i + 1) > i + 1 {
            let e = name_end(t, i + 1);
            lemma_name_end(t, i + 1);
            assert(s.subrange(o + i + 1, o + e) =~= t.subrange(i + 1, e));
            lemma_expand_shift(p, t, e, env);
        } else {
            lemma_expand_shift(p, t, i + 1, env);
        }
    }
}

proof fn lemma_name_run(s: Seq<char>, a: int, b: int)
    requires
        0 <= a <= b <= s.len(),
        forall|j: int| a <= j < b ==> is_name_char(#[trigger] s[j]),
        b == s.len() || !is_name_char(s[b]),
    ensures
        name_end(s, a) == b,
    decreases b - a,
{
    if a < b {
        lemma_name_run(s, a + 1, b);
    }
}

/// `$NAME` expands to the value of `NAME` (to nothing when it is unset),
/// where `NAME` is a non-empty run of ASCII letters (either case), digits
/// and `_`, ended by the end of the text or by any other character; the
/// rest of the text expands on its own.
pub proof fn lemma_expand_name(k: Seq<char>, rest: Seq<char>, env: Map<Seq<char>, Seq<char>>)
    requires
        k.len() > 0,
        forall|j: int|
            0 <= j < k.len() ==> ('a' <= #[trigger] k[j] && k[j] <= 'z') || ('A' <= k[j] && k[j] <= 'Z') || ('0' <= k[j]
                && k[j] <= '9') || k[j] == '_',
        rest.len() > 0 ==> !(('a' <= rest[0] && rest[0] <= 'z') || ('A' <= rest[0] && rest[0] <= 'Z') || ('0' <= rest[0]
            && rest[0] <= '9') || rest[0] == '_'),
    ensures
        expanded("$"@ + k + rest, env) == (if env.contains_key(k) {
            env[k]
        } else {
            seq![]
        }) + expanded(rest, env),
{
    reveal_strlit("$");
    let d = "$"@;
    let s = d + k + rest;
    let p = d + k;
    assert(s == p + rest);
    assert(s[0] == '$');
    assert(s[1] == k[0]);
    assert(forall|j: int| 1 <= j < 1 + k.len() ==> #[trigger] s[j] == k[j - 1]);
    assert forall|j: int| 1 <= j < 1 + k.len() implies is_name_char(#[trigger] s[j]) by {
        assert(s[j] == k[j - 1]);
    }
    if rest.len() > 0 {
        assert(s[1 + k.len() as int] == rest[0]);
    }
    lemma_name_run(s, 1, 1 + k.len() as int);
    assert(s.subrange(1, 1 + k.len() as int) =~= k);
    lemma_expand_shift(p, rest, 0, env);
}

/// `${NAME}` expands to the value of `NAME` (to nothing when it is unset),
/// whatever characters `NAME` holds up to the closing brace; the rest of
/// the text expands on its own.
pub proof fn lemma_expand_braced(k: Seq<char>, rest: Seq<char>, env: Map<Seq<char>, Seq<char>>)
    requires
        !k.contains('}'),
    ensures
        expanded("${"@ + k + "}"@ + rest, env) == (if env.contains_key(k) {
            env[k]
        } else {
            seq![]
        }) + expanded(rest, env),
{
    reveal_strlit("${");
    reveal_strlit("}");
    let p = "${"@ + k + "}"@;
    let s = p + rest;
    assert(s[0] == '$');
    assert(s[1] == '{');
    let e = 2 + k.len() as int;
    assert(s[e] == '}');
    lemma_next_index(s, 2, '}');
    assert(next_index(s, 2, '}') == e) by {
        let x = next_index(s, 2, '}');
        if x < e {
            assert(s[x] == k[x - 2]);
            assert(k.contains(k[x - 2]));
        }
    }
    assert(s.subrange(2, e) =~= k);
    assert(p.len() == e + 1);
    lemma_expand_shift(p, rest, 0, env);
}

/// A `run` line inside a rule block appends its text to that rule's
/// commands, keeping everything else; a rule with several `run` lines has
/// them all, in order.
pub proof fn lemma_run_line_appends(p: Pending, r: RuleView, c: Seq<char>, n: nat)
    requires
        p.cur == Some(r),
        c.len() > 0,
        !is_ws(c.last()),
    ensures
        scan_line(p, "  run "@ + c, n) == (
        Pending { items: p.items, cur: Some(RuleView { commands: r.commands.push(c), ..r }) },
        None::<Seq<char>>,
        ),
{
    reveal_strlit("  run ");
    reveal_strlit("run ");
    reveal_strlit("deps ");
    reveal_strlit("inputs ");
    reveal_strlit("outputs ");
    reveal_strlit("env ");
    let raw = "  run "@ + c;
    let line = "run "@ + c;
    assert(!is_ws(raw[2]));
    assert(raw.last() == c.last());
    assert forall|j: int| 0 <= j < 2 implies is_ws(raw[j]) by {}
    lemma_trim_exact(raw, 2);
    assert(raw.subrange(2, raw.len() as int) =~= line);
    assert(line[0] == 'r');
    assert(!has_prefix(line, "deps "@)) by {
        if has_prefix(line, "deps "@) {
            assert(line.subrange(0, 5)[0] == 'd');
        }
    }
    assert(!has_prefix(line, "inputs "@)) by {
        if has_prefix(line, "inputs "@) {
            assert(line.subrange(0, 7)[0] == 'i');
        }
    }
    assert(!has_prefix(line, "outputs "@)) by {
        if has_prefix(line, "outputs "@) {
            assert(line.subrange(0, 8)[0] == 'o');
        }
    }
    assert(!has_prefix(line, "env "@)) by {
        if has_prefix(line, "env "@) {
            assert(line.subrange(0, 4)[0] == 'e');
        }
    }
    assert(line.subrange(0, 4) =~= "run "@);
    assert(after(line, "run "@) =~= c);
}

/// In `KEY = VALUE` the value is the whole text after `=`, inner spaces
/// included, and the key the text before it: for a key and a value with no
/// surrounding whitespace and a key without `=`, the pair read back is
/// exactly that key and that value.
pub proof fn lemma_env_pair(k: Seq<char>, v: Seq<char>, n: nat)
    requires
        k.len() > 0,
        v.len() > 0,
        !k.contains('='),
        !is_ws(k[0]),
        !is_ws(k.last()),
        !is_ws(v[0]),
        !is_ws(v.last()),
    ensures
        parse_kv(k + " = "@ + v, n) == Ok::<(Seq<char>, Seq<char>), Seq<char>>((k, v)),
{
    reveal_strlit(" = ");
    let s = k + " = "@ + v;
    let l = k.len() as int;
    assert(s[0] == k[0]);
    assert(s.last() == v.last());
    lemma_trim_exact(s, 0);
    assert(s.subrange(0, s.len() as int) =~= s);
    let t = trim(s);
    assert(t == s);
    assert(s[l] == ' ');
    assert(s[l + 1] == '=');
    lemma_next_index(s, 0, '=');
    let e = next_index(s, 0, '=');
    assert(e == l + 1) by {
        if e < l + 1 {
            if e < l {
                assert(s[e] == k[e]);
                assert(k.contains(k[e]));
            }
        }
        if e > l + 1 {
            assert(s[l + 1] != '=');
        }
    }
    let ks = s.subrange(0, e);
    assert(ks =~= k.push(' '));
    assert(trim_start(ks) == ks);
    assert(ks.drop_last() =~= k);
    assert(trim_end(ks) == trim_end(k));
    assert(trim_end(k) == k);
    let vs = s.subrange(e + 1, s.len() as int);
    assert(vs =~= seq![' '] + v);
    assert(vs.drop_first() =~= v);
    assert(trim_start(vs) == trim_start(v));
    assert(trim_start(v) == v);
    assert(trim_end(v) == v);
}

/// A top-level `env KEY = VALUE` line ends any open rule block and sets
/// the global variable `KEY` to the whole `VALUE`, inner spaces included.
pub proof fn lemma_env_line(p: Pending, k: Seq<char>, v: Seq<char>, n: nat)
    requires
        k.len() > 0,
        v.len() > 0,
        !k.contains('='),
        !is_ws(k[0]),
        !is_ws(k.last()),
        !is_ws(v[0]),
        !is_ws(v.last()),
    ensures
        scan_line(p, "env "@ + k + " = "@ + v, n) == (
        Pending { items: flush(p, n).items.push(StatementView::Env(k, v)), cur: flush(p, n).cur },
        None::<Seq<char>>,
        ),
{
    reveal_strlit("env ");
    reveal_strlit("rule ");
    reveal_strlit("rule");
    reveal_strlit(" = ");
    let raw = "env "@ + k + " = "@ + v;
    assert(raw[0] == 'e');
    assert(raw.last() == v.last());
    assert(!is_ws(raw[0]));
    lemma_trim_exact(raw, 0);
    assert(raw.subrange(0, raw.len() as int) =~= raw);
    assert(raw != "rule"@) by {
        assert("rule"@[0] == 'r');
    }
    assert(!has_prefix(raw, "rule "@)) by {
        if has_prefix(raw, "rule "@) {
            assert(raw.subrange(0, 5)[0] == 'r');
        }
    }
    assert(raw.subrange(0, 4) =~= "env "@);
    assert(after(raw, "env "@) =~= k + " = "@ + v);
    lemma_env_pair(k, v, n);
}

} // verus!
