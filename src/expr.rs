use vstd::prelude::*;
use vstd::string::*;
use crate::text::{chars_of, string_of_range, string_of, append_chars, push_char, has_lit_at, is_lit};
use crate::tree::{Attribute, attrs_view, lookup, find_attr};

verus! {

/// Per-document state: the site-relative path of the document being generated.
#[derive(Debug)]
pub struct Context {
    pub file_path: String,
}

impl Context {
    pub fn new(file_path: String) -> (r: Context)
        ensures
            r.file_path@ == file_path@,
    {
        Context { file_path }
    }

    /// The context of the document at `relative` below the source root: its
    /// path is `relative` with a leading `/`.
    pub fn for_relative_path(relative: &str) -> (r: Context)
        ensures
            r.file_path@ == seq!['/'] + relative@,
    {
        let mut p = String::new();
        push_char(&mut p, '/');
        let cs = chars_of(relative);
        append_chars(&mut p, &cs);
        proof {
            assert(p@ =~= seq!['/'] + relative@);
        }
        Context { file_path: p }
    }
}

/// An advisory diagnostic: it is recorded and generation goes on.
#[derive(Debug)]
pub enum Warning {
    /// An expression of no known form; it yields the empty string.
    UnrecognizedExpression(String),
    /// `self.<attr>` names an attribute the invocation lacks; it yields the empty string.
    MissingAttribute(String),
    /// `<self.<attr>>` names an attribute the invocation lacks; the attributes it has.
    MissingSelfAttribute { name: String, available: Vec<String> },
    /// An `<if>` with neither a `<then>` nor an `<else>` child.
    IfWithoutBranches,
}

/// Model of a [`Warning`].
pub enum Diag {
    UnrecognizedExpression(Seq<char>),
    MissingAttribute(Seq<char>),
    MissingSelfAttribute { name: Seq<char>, available: Seq<Seq<char>> },
    IfWithoutBranches,
}

impl Warning {
    pub open spec fn view(&self) -> Diag {
        match self {
            Warning::UnrecognizedExpression(e) => Diag::UnrecognizedExpression(e@),
            Warning::MissingAttribute(a) => Diag::MissingAttribute(a@),
            Warning::MissingSelfAttribute { name, available } => Diag::MissingSelfAttribute {
                name: name@,
                available: available@.map_values(|s: String| s@),
            },
            Warning::IfWithoutBranches => Diag::IfWithoutBranches,
        }
    }
}

/// Models of a sequence of warnings.
pub open spec fn diags(ws: Seq<Warning>) -> Seq<Diag> {
    ws.map_values(|w: Warning| w@)
}

/// A fatal error of expansion.
#[derive(Debug)]
pub enum ExpandError {
    /// The pattern of an `<if>`, anchored, is not a valid regular expression.
    InvalidPattern(String),
    /// An `<if>` element does not carry exactly one attribute; the count it has.
    IfAttributes(usize),
    /// A loop element does not hold exactly one element child; the count it has.
    LoopBody(usize),
    /// Components nest deeper than the allowed depth; the tag met at the limit.
    TooDeep(String),
}

/// Model of an [`ExpandError`].
pub enum Failure {
    InvalidPattern(Seq<char>),
    IfAttributes(nat),
    LoopBody(nat),
    TooDeep(Seq<char>),
}

impl ExpandError {
    pub open spec fn view(&self) -> Failure {
        match self {
            ExpandError::InvalidPattern(p) => Failure::InvalidPattern(p@),
            ExpandError::IfAttributes(n) => Failure::IfAttributes(*n as nat),
            ExpandError::LoopBody(n) => Failure::LoopBody(*n as nat),
            ExpandError::TooDeep(t) => Failure::TooDeep(t@),
        }
    }
}

/// Characters allowed in each side of `A||B`.
pub open spec fn is_name_char(c: char) -> bool {
    ||| 'a' <= c <= 'z'
    ||| 'A' <= c <= 'Z'
    ||| '0' <= c <= '9'
    ||| c == '_'
    ||| c == '-'
    ||| c == '.'
}

/// Characters allowed inside `${...}`.
pub open spec fn is_expr_char(c: char) -> bool {
    is_name_char(c) || c == '|'
}

pub open spec fn all_name_chars(s: Seq<char>) -> bool {
    forall|i: int| 0 <= i < s.len() ==> is_name_char(#[trigger] s[i])
}

/// `e` is `A||B` split at `k`: `A` is `e[..k]`, `B` is `e[k+2..]`, both non-empty names.
pub open spec fn is_or_split(e: Seq<char>, k: int) -> bool {
    &&& 0 < k
    &&& k + 2 < e.len()
    &&& e[k] == '|'
    &&& e[k + 1] == '|'
    &&& all_name_chars(e.subrange(0, k))
    &&& all_name_chars(e.subrange(k + 2, e.len() as int))
}

/// The attribute that `e` refers to when it has the form `self.<attr>`.
pub open spec fn attr_ref(e: Seq<char>) -> Option<Seq<char>> {
    let p = "self."@;
    if p.len() <= e.len() && e.subrange(0, p.len() as int) == p {
        Some(e.subrange(p.len() as int, e.len() as int))
    } else {
        None
    }
}

/// Value of an expression without `||`.
pub open spec fn eval_atom(e: Seq<char>, attrs: Seq<(Seq<char>, Seq<char>)>, path: Seq<char>) -> Seq<char> {
    if e == "self.filepath"@ {
        path
    } else if let Some(a) = attr_ref(e) {
        match lookup(attrs, a) {
            Some(v) => v,
            None => Seq::empty(),
        }
    } else {
        Seq::empty()
    }
}

/// Warnings from evaluating an expression without `||`.
pub open spec fn atom_diags(e: Seq<char>, attrs: Seq<(Seq<char>, Seq<char>)>) -> Seq<Diag> {
    if e == "self.filepath"@ {
        Seq::empty()
    } else if let Some(a) = attr_ref(e) {
        match lookup(attrs, a) {
            Some(v) => Seq::empty(),
            None => seq![Diag::MissingAttribute(a)],
        }
    } else {
        seq![Diag::UnrecognizedExpression(e)]
    }
}

/// Value of expression `e` against the invocation's attributes and the document path.
pub open spec fn evaluate(e: Seq<char>, attrs: Seq<(Seq<char>, Seq<char>)>, path: Seq<char>) -> Seq<char> {
    if e == "self.filepath"@ {
        path
    } else if exists|k: int| is_or_split(e, k) {
        let k = choose|k: int| is_or_split(e, k);
        let a = eval_atom(e.subrange(0, k), attrs, path);
        if a.len() > 0 {
            a
        } else {
            eval_atom(e.subrange(k + 2, e.len() as int), attrs, path)
        }
    } else {
        eval_atom(e, attrs, path)
    }
}

/// Warnings from evaluating expression `e`.
pub open spec fn eval_diags(e: Seq<char>, attrs: Seq<(Seq<char>, Seq<char>)>, path: Seq<char>) -> Seq<Diag> {
    if e == "self.filepath"@ {
        Seq::empty()
    } else if exists|k: int| is_or_split(e, k) {
        let k = choose|k: int| is_or_split(e, k);
        let d = atom_diags(e.subrange(0, k), attrs);
        if eval_atom(e.subrange(0, k), attrs, path).len() > 0 {
            d
        } else {
            d + atom_diags(e.subrange(k + 2, e.len() as int), attrs)
        }
    } else {
        atom_diags(e, attrs)
    }
}

proof fn lemma_or_split_unique(e: Seq<char>, k: int, j: int)
    requires
        is_or_split(e, k),
        is_or_split(e, j),
    ensures
        k == j,
{
    if k < j {
        assert(e.subrange(0, j)[k] == e[k]);
    } else if j < k {
        assert(e.subrange(0, k)[j] == e[j]);
    }
}

/// The value of attribute `a`, or the empty string where it is absent.
pub open spec fn attr_or_empty(attrs: Seq<(Seq<char>, Seq<char>)>, a: Seq<char>) -> Seq<char> {
    match lookup(attrs, a) {
        Some(v) => v,
        None => Seq::empty(),
    }
}

/// `self.a||self.b` is a default: the value of attribute `a` where that is not
/// empty, else the value of attribute `b`, which is empty where `b` is absent.
pub proof fn law_default_value(
    a: Seq<char>,
    b: Seq<char>,
    attrs: Seq<(Seq<char>, Seq<char>)>,
    path: Seq<char>,
)
    requires
        all_name_chars(a),
        all_name_chars(b),
        a != "filepath"@,
        b != "filepath"@,
    ensures
        evaluate("self."@ + a + "||"@ + "self."@ + b, attrs, path) == if attr_or_empty(attrs, a).len() > 0 {
            attr_or_empty(attrs, a)
        } else {
            attr_or_empty(attrs, b)
        },
{
    reveal_strlit("self.");
    reveal_strlit("||");
    reveal_strlit("self.filepath");
    reveal_strlit("filepath");
    let p = "self."@;
    let left = p + a;
    let right = p + b;
    let e = left + "||"@ + right;
    assert(e =~= "self."@ + a + "||"@ + "self."@ + b);
    let k = left.len() as int;
    assert(e[k] == '|' && e[k + 1] == '|');
    assert(e.subrange(0, k) =~= left);
    assert(e.subrange(k + 2, e.len() as int) =~= right);
    assert forall|i: int| 0 <= i < left.len() implies is_name_char(#[trigger] left[i]) by {
        if i >= 5 {
            assert(left[i] == a[i - 5]);
        }
    }
    assert forall|i: int| 0 <= i < right.len() implies is_name_char(#[trigger] right[i]) by {
        if i >= 5 {
            assert(right[i] == b[i - 5]);
        }
    }
    assert(is_or_split(e, k));
    let kk = choose|j: int| is_or_split(e, j);
    lemma_or_split_unique(e, k, kk);
    if e == "self.filepath"@ {
        assert(e[k] == "self.filepath"@[k]);
    }
    if left == "self.filepath"@ {
        assert(a =~= left.subrange(5, left.len() as int));
        assert(a =~= "filepath"@);
    }
    if right == "self.filepath"@ {
        assert(b =~= right.subrange(5, right.len() as int));
        assert(b =~= "filepath"@);
    }
    assert(left.subrange(0, 5) =~= p);
    assert(right.subrange(0, 5) =~= p);
    assert(left.subrange(5, left.len() as int) =~= a);
    assert(right.subrange(5, right.len() as int) =~= b);
}

/// Whether `cs[from..to]` is made of name characters only.
fn all_names_in(cs: &Vec<char>, from: usize, to: usize) -> (r: bool)
    requires
        from <= to <= cs@.len(),
    ensures
        r == all_name_chars(cs@.subrange(from as int, to as int)),
{
    let mut i: usize = from;
    while i < to
        invariant
            from <= i <= to <= cs@.len(),
            forall|j: int| from <= j < i ==> is_name_char(#[trigger] cs@[j]),
        decreases to - i,
    {
        let c = cs[i];
        if !name_char(c) {
            assert(cs@.subrange(from as int, to as int)[i - from] == c);
            return false;
        }
        i = i + 1;
    }
    assert forall|j: int| 0 <= j < to - from implies is_name_char(#[trigger] cs@.subrange(from as int, to as int)[j]) by {
        assert(cs@.subrange(from as int, to as int)[j] == cs@[from + j]);
    }
    true
}

/// Where `e` splits as `A||B`, the index of the first `|`.
fn find_or_split(e: &Vec<char>) -> (r: Option<usize>)
    ensures
        match r {
            Some(k) => is_or_split(e@, k as int),
            None => !exists|k: int| is_or_split(e@, k),
        },
{
    let n = e.len();
    let mut k: usize = 0;
    while k < n && e[k] != '|'
        invariant
            k <= n == e@.len(),
            forall|j: int| 0 <= j < k ==> e@[j] != '|',
        decreases n - k,
    {
        k = k + 1;
    }
    if k < n && k > 0 && n - k > 2 && e[k + 1] == '|' && all_names_in(e, 0, k) && all_names_in(e, k + 2, n) {
        return Some(k);
    }
    proof {
        assert forall|j: int| !is_or_split(e@, j) by {
            if is_or_split(e@, j) {
                if j < k {
                    assert(e@[j] == '|');
                } else if k < j {
                    assert(e@.subrange(0, j)[k as int] == e@[k as int]);
                    assert(!is_name_char('|'));
                }
            }
        }
    }
    None
}

/// Evaluates an expression without `||`.
fn evaluate_atom(
    e: &Vec<char>,
    attrs: &Vec<Attribute>,
    ctx: &Context,
    warnings: &mut Vec<Warning>,
) -> (r: String)
    ensures
        r@ == eval_atom(e@, attrs_view(attrs@), ctx.file_path@),
        diags(final(warnings)@) == diags(old(warnings)@) + atom_diags(e@, attrs_view(attrs@)),
{
    let ghost w0 = warnings@;
    if is_lit(e, "self.filepath") {
        assert(diags(warnings@) =~= diags(w0) + atom_diags(e@, attrs_view(attrs@)));
        return ctx.file_path.clone();
    }
    let p = "self.".unicode_len();
    if has_lit_at(e, 0, "self.") {
        let name = string_of_range(e, p, e.len());
        match find_attr(attrs, &name) {
            Some(i) => {
                assert(diags(warnings@) =~= diags(w0) + atom_diags(e@, attrs_view(attrs@)));
                attrs[i].value.clone()
            },
            None => {
                warnings.push(Warning::MissingAttribute(name));
                assert(diags(warnings@) =~= diags(w0) + atom_diags(e@, attrs_view(attrs@)));
                String::new()
            },
        }
    } else {
        warnings.push(Warning::UnrecognizedExpression(string_of(e)));
        assert(diags(warnings@) =~= diags(w0) + atom_diags(e@, attrs_view(attrs@)));
        String::new()
    }
}

/// Evaluates expression `e` (written without `${` and `}`) against the
/// invocation's attributes and the document context.
pub fn evaluate_expression(
    e: &Vec<char>,
    attrs: &Vec<Attribute>,
    ctx: &Context,
    warnings: &mut Vec<Warning>,
) -> (r: String)
    ensures
        r@ == evaluate(e@, attrs_view(attrs@), ctx.file_path@),
        diags(final(warnings)@) == diags(old(warnings)@) + eval_diags(e@, attrs_view(attrs@), ctx.file_path@),
{
    let ghost w0 = warnings@;
    if is_lit(e, "self.filepath") {
        assert(diags(warnings@) =~= diags(w0) + eval_diags(e@, attrs_view(attrs@), ctx.file_path@));
        return ctx.file_path.clone();
    }
    match find_or_split(e) {
        Some(k) => {
            proof {
                let kk = choose|j: int| is_or_split(e@, j);
                lemma_or_split_unique(e@, k as int, kk);
            }
            let n = e.len();
            let a = chars_of(string_of_range(e, 0, k).as_str());
            let va = evaluate_atom(&a, attrs, ctx, warnings);
            if va.unicode_len() > 0 {
                return va;
            }
            let b = chars_of(string_of_range(e, k + 2, n).as_str());
            let vb = evaluate_atom(&b, attrs, ctx, warnings);
            assert(diags(warnings@) =~= diags(w0) + eval_diags(e@, attrs_view(attrs@), ctx.file_path@));
            vb
        },
        None => evaluate_atom(e, attrs, ctx, warnings),
    }
}

/// Number of consecutive expression characters in `s` from index `i`.
pub open spec fn expr_run(s: Seq<char>, i: int) -> nat
    decreases s.len() - i,
{
    if 0 <= i < s.len() && is_expr_char(s[i]) {
        1 + expr_run(s, i + 1)
    } else {
        0
    }
}

/// Where a placeholder `${name}` starts at index `i` of `s`, the length of `name`.
pub open spec fn placeholder_at(s: Seq<char>, i: int) -> Option<int> {
    if 0 <= i && i + 1 < s.len() && s[i] == '$' && s[i + 1] == '{' {
        let n = expr_run(s, i + 2) as int;
        if n > 0 && i + 2 + n < s.len() && s[i + 2 + n] == '}' {
            Some(n)
        } else {
            None
        }
    } else {
        None
    }
}

/// `s[i..]` with every placeholder `${e}` replaced by the value of `e`, in one
/// pass from left to right: values are not scanned again.
pub open spec fn expand_from(
    s: Seq<char>,
    i: int,
    attrs: Seq<(Seq<char>, Seq<char>)>,
    path: Seq<char>,
) -> Seq<char>
    decreases s.len() - i,
{
    if i < 0 || i >= s.len() {
        Seq::empty()
    } else {
        match placeholder_at(s, i) {
            Some(n) => evaluate(s.subrange(i + 2, i + 2 + n), attrs, path) + expand_from(s, i + 3 + n, attrs, path),
            None => seq![s[i]] + expand_from(s, i + 1, attrs, path),
        }
    }
}

/// Warnings from expanding the placeholders of `s[i..]`.
pub open spec fn expand_diags_from(
    s: Seq<char>,
    i: int,
    attrs: Seq<(Seq<char>, Seq<char>)>,
    path: Seq<char>,
) -> Seq<Diag>
    decreases s.len() - i,
{
    if i < 0 || i >= s.len() {
        Seq::empty()
    } else {
        match placeholder_at(s, i) {
            Some(n) => eval_diags(s.subrange(i + 2, i + 2 + n), attrs, path) + expand_diags_from(s, i + 3 + n, attrs, path),
            None => expand_diags_from(s, i + 1, attrs, path),
        }
    }
}

pub open spec fn expand(s: Seq<char>, attrs: Seq<(Seq<char>, Seq<char>)>, path: Seq<char>) -> Seq<char> {
    expand_from(s, 0, attrs, path)
}

pub open spec fn expand_diags(s: Seq<char>, attrs: Seq<(Seq<char>, Seq<char>)>, path: Seq<char>) -> Seq<Diag> {
    expand_diags_from(s, 0, attrs, path)
}

fn name_char(c: char) -> (r: bool)
    ensures
        r == is_name_char(c),
{
    ('a' <= c && c <= 'z') || ('A' <= c && c <= 'Z') || ('0' <= c && c <= '9') || c == '_' || c == '-' || c == '.'
}

fn expr_char(c: char) -> (r: bool)
    ensures
        r == is_expr_char(c),
{
    name_char(c) || c == '|'
}

proof fn lemma_expr_run(s: Seq<char>, i: int, j: int)
    requires
        0 <= i <= j <= s.len(),
        forall|k: int| i <= k < j ==> is_expr_char(#[trigger] s[k]),
        j == s.len() || !is_expr_char(s[j]),
    ensures
        expr_run(s, i) == j - i,
    decreases j - i,
{
    if i < j {
        lemma_expr_run(s, i + 1, j);
    }
}

/// A placeholder `${e}`, where `e` is a non-empty run of expression
/// characters, expands to the value of `e`.
pub proof fn law_placeholder_is_replaced_by_value(
    e: Seq<char>,
    attrs: Seq<(Seq<char>, Seq<char>)>,
    path: Seq<char>,
)
    requires
        e.len() > 0,
        forall|i: int| 0 <= i < e.len() ==> is_expr_char(#[trigger] e[i]),
    ensures
        expand(seq!['$', '{'] + e + seq!['}'], attrs, path) == evaluate(e, attrs, path),
        expand_diags(seq!['$', '{'] + e + seq!['}'], attrs, path) == eval_diags(e, attrs, path),
{
    let s = seq!['$', '{'] + e + seq!['}'];
    let n = e.len() as int;
    assert forall|k: int| 2 <= k < 2 + n implies is_expr_char(#[trigger] s[k]) by {
        assert(s[k] == e[k - 2]);
    }
    assert(s[2 + n] == '}');
    lemma_expr_run(s, 2, 2 + n);
    assert(placeholder_at(s, 0) == Some(n));
    assert(s.subrange(2, 2 + n) =~= e);
    assert(expand_from(s, 3 + n, attrs, path) == Seq::<char>::empty());
    assert(evaluate(e, attrs, path) + Seq::<char>::empty() =~= evaluate(e, attrs, path));
    assert(expand_diags_from(s, 3 + n, attrs, path) == Seq::<Diag>::empty());
    assert(eval_diags(e, attrs, path) + Seq::<Diag>::empty() =~= eval_diags(e, attrs, path));
}

/// `self.a`, for a name `a` other than `filepath`, is the value of attribute
/// `a`, empty where it is absent; an absent attribute is reported once.
pub proof fn lemma_self_reference(a: Seq<char>, attrs: Seq<(Seq<char>, Seq<char>)>, path: Seq<char>)
    requires
        all_name_chars(a),
        a != "filepath"@,
    ensures
        evaluate("self."@ + a, attrs, path) == attr_or_empty(attrs, a),
        eval_diags("self."@ + a, attrs, path) == if lookup(attrs, a) is None {
            seq![Diag::MissingAttribute(a)]
        } else {
            Seq::<Diag>::empty()
        },
        forall|i: int| 0 <= i < ("self."@ + a).len() ==> is_expr_char(#[trigger] ("self."@ + a)[i]),
{
    reveal_strlit("self.");
    reveal_strlit("self.filepath");
    reveal_strlit("filepath");
    let e = "self."@ + a;
    assert forall|i: int| 0 <= i < e.len() implies is_name_char(#[trigger] e[i]) by {
        if i >= 5 {
            assert(e[i] == a[i - 5]);
        }
    }
    assert forall|k: int| !is_or_split(e, k) by {
        if 0 <= k < e.len() {
            assert(is_name_char(e[k]));
        }
    }
    if e == "self.filepath"@ {
        assert(a =~= e.subrange(5, e.len() as int));
        assert(a =~= "filepath"@);
    }
    assert(e.subrange(0, 5) =~= "self."@);
    assert(e.subrange(5, e.len() as int) =~= a);
}

/// Length of the run of expression characters in `cs` from `i`.
fn run_length(cs: &Vec<char>, i: usize) -> (r: usize)
    requires
        i <= cs@.len(),
    ensures
        r == expr_run(cs@, i as int),
        i + r <= cs@.len(),
{
    let mut j: usize = i;
    while j < cs.len() && expr_char(cs[j])
        invariant
            i <= j <= cs@.len(),
            expr_run(cs@, i as int) == (j - i) + expr_run(cs@, j as int),
        decreases cs.len() - j,
    {
        j = j + 1;
    }
    assert(expr_run(cs@, j as int) == 0);
    j - i
}

/// Replaces every placeholder `${e}` in `s` by the value of expression `e`.
pub fn expand_string(
    s: &str,
    attrs: &Vec<Attribute>,
    ctx: &Context,
    warnings: &mut Vec<Warning>,
) -> (r: String)
    ensures
        r@ == expand(s@, attrs_view(attrs@), ctx.file_path@),
        diags(final(warnings)@) == diags(old(warnings)@) + expand_diags(s@, attrs_view(attrs@), ctx.file_path@),
{
    let ghost av = attrs_view(attrs@);
    let ghost path = ctx.file_path@;
    let ghost w0 = diags(warnings@);
    let cs = chars_of(s);
    let n = cs.len();
    let mut out = String::new();
    let mut i: usize = 0;
    while i < n
        invariant
            n == cs@.len(),
            cs@ == s@,
            av == attrs_view(attrs@),
            path == ctx.file_path@,
            i <= n,
            out@ + expand_from(cs@, i as int, av, path) == expand_from(cs@, 0, av, path),
            w0 + expand_diags_from(cs@, 0, av, path) == diags(warnings@) + expand_diags_from(cs@, i as int, av, path),
        decreases n - i,
    {
        let ghost out0 = out@;
        let ghost wd = diags(warnings@);
        let mut matched = false;
        if n - i > 1 && cs[i] == '$' && cs[i + 1] == '{' {
            let m = run_length(&cs, i + 2);
            if m > 0 && i + 2 + m < n && cs[i + 2 + m] == '}' {
                assert(placeholder_at(cs@, i as int) == Some(m as int));
                let name = chars_of(string_of_range(&cs, i + 2, i + 2 + m).as_str());
                let v = evaluate_expression(&name, attrs, ctx, warnings);
                let vc = chars_of(v.as_str());
                append_chars(&mut out, &vc);
                proof {
                    let rest = expand_from(cs@, i + 3 + m, av, path);
                    assert(out0 + expand_from(cs@, i as int, av, path) =~= out@ + rest);
                    let drest = expand_diags_from(cs@, i + 3 + m, av, path);
                    assert(diags(warnings@) =~= wd + eval_diags(name@, av, path));
                    assert(wd + expand_diags_from(cs@, i as int, av, path) =~= diags(warnings@) + drest);
                }
                i = i + 3 + m;
                matched = true;
            }
        }
        if !matched {
            assert(placeholder_at(cs@, i as int) is None);
            push_char(&mut out, cs[i]);
            proof {
                let rest = expand_from(cs@, i + 1, av, path);
                assert(out0 + expand_from(cs@, i as int, av, path) =~= out@ + rest);
            }
            i = i + 1;
        }
    }
    out
}

/// The pattern taken as one group and anchored at both ends, so that it must
/// match the whole text (`a|b` becomes `^(?:a|b)$`).
pub open spec fn anchored(p: Seq<char>) -> Seq<char> {
    seq!['^', '(', '?', ':'] + p + seq![')', '$']
}

/// Whether `pattern` is accepted by the regular-expression compiler.
pub uninterp spec fn regex_compiles(pattern: Seq<char>) -> bool;

/// Whether the compiled `pattern` matches somewhere in `haystack`.
pub uninterp spec fn regex_is_match(pattern: Seq<char>, haystack: Seq<char>) -> bool;

/// Relies on `regex::Regex::new`, which fails exactly on patterns it cannot
/// compile, and on `regex::Regex::is_match`, which reports whether the compiled
/// pattern matches anywhere in the haystack. Both depend on their arguments alone.
#[verifier::external_body]
fn regex_search(pattern: &str, haystack: &str) -> (r: Option<bool>)
    ensures
        r is Some == regex_compiles(pattern@),
        r matches Some(b) ==> b == regex_is_match(pattern@, haystack@),
{
    match regex::Regex::new(pattern) {
        Ok(re) => Some(re.is_match(haystack)),
        Err(_) => None,
    }
}

/// Outcome of testing expression `e` against `pattern`: the pattern's
/// placeholders are expanded, it is anchored, and it must match the value of
/// `e` whole.
pub open spec fn pattern_outcome(
    e: Seq<char>,
    pattern: Seq<char>,
    attrs: Seq<(Seq<char>, Seq<char>)>,
    path: Seq<char>,
) -> Result<bool, Failure> {
    let p = anchored(expand(pattern, attrs, path));
    if regex_compiles(p) {
        Ok(regex_is_match(p, evaluate(e, attrs, path)))
    } else {
        Err(Failure::InvalidPattern(p))
    }
}

pub open spec fn pattern_diags(
    e: Seq<char>,
    pattern: Seq<char>,
    attrs: Seq<(Seq<char>, Seq<char>)>,
    path: Seq<char>,
) -> Seq<Diag> {
    eval_diags(e, attrs, path) + expand_diags(pattern, attrs, path)
}

/// Whether the value of expression `e` matches `pattern` whole.
pub fn matches_pattern(
    e: &Vec<char>,
    pattern: &str,
    attrs: &Vec<Attribute>,
    ctx: &Context,
    warnings: &mut Vec<Warning>,
) -> (r: Result<bool, ExpandError>)
    ensures
        match r {
            Ok(b) => pattern_outcome(e@, pattern@, attrs_view(attrs@), ctx.file_path@) == Ok::<bool, Failure>(b),
            Err(err) => pattern_outcome(e@, pattern@, attrs_view(attrs@), ctx.file_path@) == Err::<bool, Failure>(err@),
        },
        diags(final(warnings)@) == diags(old(warnings)@) + pattern_diags(e@, pattern@, attrs_view(attrs@), ctx.file_path@),
{
    let ghost w0 = diags(warnings@);
    let value = evaluate_expression(e, attrs, ctx, warnings);
    let expanded = expand_string(pattern, attrs, ctx, warnings);
    let mut p = String::new();
    push_char(&mut p, '^');
    push_char(&mut p, '(');
    push_char(&mut p, '?');
    push_char(&mut p, ':');
    let ec = chars_of(expanded.as_str());
    append_chars(&mut p, &ec);
    push_char(&mut p, ')');
    push_char(&mut p, '$');
    assert(p@ =~= anchored(expanded@));
    assert(diags(warnings@) =~= w0 + pattern_diags(e@, pattern@, attrs_view(attrs@), ctx.file_path@));
    match regex_search(p.as_str(), value.as_str()) {
        Some(b) => Ok(b),
        None => Err(ExpandError::InvalidPattern(p)),
    }
}

/// Every diagnostic recorded in `before` is still recorded, in order, in `after`.
pub open spec fn grows(before: Seq<Warning>, after: Seq<Warning>) -> bool {
    diags(before).is_prefix_of(diags(after))
}

/// [`grows`] is transitive.
pub broadcast proof fn lemma_grows_trans(a: Seq<Warning>, b: Seq<Warning>, c: Seq<Warning>)
    requires
        #[trigger] grows(a, b),
        #[trigger] grows(b, c),
    ensures
        grows(a, c),
{
    assert(diags(c).subrange(0, diags(a).len() as int) =~= diags(b).subrange(0, diags(a).len() as int));
}

/// [`grows`] is reflexive.
pub proof fn lemma_grows_refl(a: Seq<Warning>)
    ensures
        grows(a, a),
{
    assert(diags(a).subrange(0, diags(a).len() as int) =~= diags(a));
}

/// Appending diagnostics keeps the earlier ones.
pub proof fn lemma_grows_append(a: Seq<Warning>, b: Seq<Warning>, x: Seq<Diag>)
    requires
        diags(b) == diags(a) + x,
    ensures
        grows(a, b),
{
    assert(diags(b).subrange(0, diags(a).len() as int) =~= diags(a));
}

/// Pushing a warning keeps the earlier ones.
pub proof fn lemma_grows_push(a: Seq<Warning>, w: Warning)
    ensures
        grows(a, a.push(w)),
{
    assert(diags(a.push(w)) =~= diags(a) + seq![w@]);
    lemma_grows_append(a, a.push(w), seq![w@]);
}

} // verus!
