//! Which fields of a struct its derived `Trace` implementation traces.
//!
//! A field marked `#[trace]` holds a pointer as it is. A field marked
//! `#[trace = "unmask"]` holds a pointer that the function `unmask` makes of
//! it. The other fields hold none.
use crate::text::{matches_at, occurs_at};
use vstd::prelude::*;
use vstd::string::*;

verus! {

/// What an attribute says, apart from its name.
#[derive(Debug)]
pub enum Meta {
    /// Nothing.
    Word,
    /// `= "..."`, with the value of the string.
    Str(String),
    /// Something else that is well formed.
    Other,
    /// Something that is not.
    Invalid,
}

/// An attribute of a field.
#[derive(Debug)]
pub struct Attribute {
    /// Its name.
    pub path: String,
    /// What it says.
    pub meta: Meta,
}

/// A field of a struct.
#[derive(Debug)]
pub struct Field {
    /// Its attributes.
    pub attrs: Vec<Attribute>,
}

/// The type that `Trace` is derived for.
#[derive(Debug)]
pub enum Data {
    /// A struct, with its fields.
    Struct(Vec<Field>),
    /// An enum.
    Enum,
    /// A union.
    Union,
}

/// Why `Trace` cannot be derived.
#[derive(Clone, Copy, Debug, PartialEq, Eq, Structural)]
pub enum DeriveError {
    /// Expected a struct.
    NotAStruct,
    /// The attribute is not well formed.
    InvalidMeta,
    /// Expected `#[trace = "..."]`.
    UnexpectedMeta,
    /// The string is not the path of a function.
    InvalidPath,
}

/// How a field is traced.
#[derive(Debug)]
pub enum Traced {
    /// The field is a pointer.
    Unmasked,
    /// The function with this path makes a pointer of the field.
    Masked(String),
}

/// Which fields are traced, by their positions.
#[derive(Debug)]
pub struct TracePlan {
    /// The fields that are pointers.
    pub unmasked: Vec<usize>,
    /// The fields that functions make pointers of, with the paths of those.
    pub masked: Vec<(usize, String)>,
}

impl DeriveError {
    /// What is wrong, where the parser of attributes and paths has not said so
    /// itself.
    pub fn message(&self) -> (r: Option<&'static str>)
        ensures
            r is Some <==> *self == DeriveError::NotAStruct || *self
                == DeriveError::UnexpectedMeta,
            *self == DeriveError::NotAStruct ==> r->0@ == "Expected a struct"@,
            *self == DeriveError::UnexpectedMeta ==> r->0@ == "expected #[trace = \"...\"]"@,
    {
        match self {
            DeriveError::NotAStruct => Some("Expected a struct"),
            DeriveError::UnexpectedMeta => Some("expected #[trace = \"...\"]"),
            _ => None,
        }
    }
}

/// Is this a digit?
pub open spec fn is_digit(c: char) -> bool {
    '0' <= c <= '9'
}

/// Is this a character of a word, that is of a name, a keyword or a number?
pub open spec fn is_word_char(c: char) -> bool {
    'a' <= c <= 'z' || 'A' <= c <= 'Z' || is_digit(c) || c == '_'
}

/// Does this character stand between words and do nothing else?
pub open spec fn is_blank(c: char) -> bool {
    c == ' ' || c == '\t' || c == '\n'
}

/// Does this character open or close a group?
pub open spec fn is_bracket(c: char) -> bool {
    is_opening(c) || c == ')' || c == ']' || c == '}'
}

/// Does this character open a group?
pub open spec fn is_opening(c: char) -> bool {
    c == '(' || c == '[' || c == '{'
}

/// Do two characters enclose a group?
pub open spec fn encloses(open: char, close: char) -> bool {
    open == '(' && close == ')' || open == '[' && close == ']' || open == '{' && close == '}'
}

/// Is this a character of an operator?
pub open spec fn is_operator(c: char) -> bool {
    c == '!' || c == '%' || c == '&' || c == '*' || c == '+' || c == ',' || c == '-' || c == '.'
        || c == '/' || c == ':' || c == ';' || c == '<' || c == '=' || c == '>' || c == '?' || c
        == '@' || c == '^' || c == '|'
}

/// Where the word ends that goes on at position `k`.
pub open spec fn word_end(text: Seq<char>, k: int) -> int
    decreases text.len() - k,
{
    if 0 <= k < text.len() && is_word_char(text[k]) {
        word_end(text, k + 1)
    } else {
        k
    }
}

/// Where the digits end that go on at position `k`. Underscores may part them.
pub open spec fn digits_end(text: Seq<char>, k: int) -> int
    decreases text.len() - k,
{
    if 0 <= k < text.len() && (is_digit(text[k]) || text[k] == '_') {
        digits_end(text, k + 1)
    } else {
        k
    }
}

/// Where the blanks end that go on at position `k`.
pub open spec fn blanks_end(text: Seq<char>, k: int) -> int
    decreases text.len() - k,
{
    if 0 <= k < text.len() && is_blank(text[k]) {
        blanks_end(text, k + 1)
    } else {
        k
    }
}

/// Do these two characters stand at position `k`?
pub open spec fn pair_at(text: Seq<char>, k: int, a: char, b: char) -> bool {
    0 <= k && k + 1 < text.len() && text[k] == a && text[k + 1] == b
}

/// Does a word start at position `i`, if there is one?
pub open spec fn is_word_start(text: Seq<char>, i: int) -> bool {
    i == 0 || !is_word_char(text[i - 1])
}

/// Is the character at position `i` a part of a decimal integer, with a suffix
/// such as `u8` or without one, of another word, of a lifetime or of an operator,
/// a bracket or a blank? Strings, characters, other numbers, comments and
/// attributes are not.
pub open spec fn is_token_at(text: Seq<char>, i: int) -> bool {
    let c = text[i];
    if is_word_char(c) {
        is_word_start(text, i) && is_digit(c) ==> {
            let e = digits_end(text, i);
            e == text.len() || !is_word_char(text[e]) || text[e] == 'u' || text[e] == 'i'
        }
    } else if c == '\'' {
        &&& is_word_start(text, i)
        &&& i + 1 < text.len() && is_word_char(text[i + 1]) && !is_digit(text[i + 1])
        &&& word_end(text, i + 1) == text.len() || text[word_end(text, i + 1)] != '\''
    } else {
        &&& is_operator(c) || is_bracket(c) || is_blank(c)
        &&& !pair_at(text, i, '/', '/') && !pair_at(text, i, '/', '*')
    }
}

/// Are the brackets in a text closed in order, from position `k` on, where these
/// ones are open?
pub open spec fn is_balanced(text: Seq<char>, k: int, open: Seq<char>) -> bool
    decreases text.len() - k,
{
    if k < 0 || k >= text.len() {
        open.len() == 0
    } else if is_opening(text[k]) {
        is_balanced(text, k + 1, open.push(text[k]))
    } else if is_bracket(text[k]) {
        open.len() > 0 && encloses(open.last(), text[k]) && is_balanced(
            text,
            k + 1,
            open.drop_last(),
        )
    } else {
        is_balanced(text, k + 1, open)
    }
}

/// Does a list end at position `i` that has a `dyn` right behind it, with a
/// lifetime right behind that, as in `for<'a> dyn 'a + Fn(&'a u8)`?
pub open spec fn binds_lifetime_at(text: Seq<char>, i: int) -> bool {
    let object = blanks_end(text, i + 1);
    let bound = blanks_end(text, object + 3);
    &&& text[i] == '>'
    &&& i == 0 || text[i - 1] != '-'
    &&& occurs_at(text, "dyn"@, object)
    &&& bound < text.len() && text[bound] == '\''
}

/// Can a text be split into tokens, and these be parsed, without a panic? It
/// consists of words, decimal integers, lifetimes, operators and brackets that
/// are closed in order, and no `dyn` with a lifetime right behind it has a
/// `for<..>` in front.
pub open spec fn is_quiet_text(text: Seq<char>) -> bool {
    &&& forall|i: int| 0 <= i < text.len() ==> #[trigger] is_token_at(text, i)
    &&& is_balanced(text, 0, Seq::empty())
    &&& forall|i: int| 0 <= i < text.len() ==> !#[trigger] binds_lifetime_at(text, i)
}

/// Does a text hold nothing but words and colons?
pub open spec fn is_simple(text: Seq<char>) -> bool {
    forall|i: int| 0 <= i < text.len() ==> is_word_char(#[trigger] text[i]) || text[i] == ':'
}

/// Is this a keyword that cannot be a part of a path?
pub open spec fn is_keyword(word: Seq<char>) -> bool {
    ||| word == "_"@
    ||| word == "abstract"@
    ||| word == "as"@
    ||| word == "become"@
    ||| word == "box"@
    ||| word == "break"@
    ||| word == "const"@
    ||| word == "continue"@
    ||| word == "do"@
    ||| word == "else"@
    ||| word == "enum"@
    ||| word == "false"@
    ||| word == "final"@
    ||| word == "fn"@
    ||| word == "for"@
    ||| word == "if"@
    ||| word == "impl"@
    ||| word == "in"@
    ||| word == "let"@
    ||| word == "loop"@
    ||| word == "macro"@
    ||| word == "match"@
    ||| word == "mod"@
    ||| word == "move"@
    ||| word == "mut"@
    ||| word == "override"@
    ||| word == "priv"@
    ||| word == "pub"@
    ||| word == "ref"@
    ||| word == "return"@
    ||| word == "static"@
    ||| word == "struct"@
    ||| word == "trait"@
    ||| word == "true"@
    ||| word == "type"@
    ||| word == "typeof"@
    ||| word == "unsafe"@
    ||| word == "unsized"@
    ||| word == "use"@
    ||| word == "virtual"@
    ||| word == "where"@
    ||| word == "while"@
    ||| word == "yield"@
}

/// Does a text, from position `k` on, consist of names with `::` between them?
pub open spec fn is_names_from(text: Seq<char>, k: int) -> bool
    decreases text.len() - k,
{
    let e = word_end(text, k);
    &&& k < e
    &&& !is_digit(text[k])
    &&& !is_keyword(text.subrange(k, e))
    &&& e == text.len() || pair_at(text, e, ':', ':') && is_names_from(text, e + 2)
}

/// Does a text consist of names with `::` between them, and possibly in front?
pub open spec fn is_simple_path(text: Seq<char>) -> bool {
    is_names_from(
        text,
        if pair_at(text, 0, ':', ':') {
            2
        } else {
            0
        },
    )
}

/// Is a text a path, if it holds nothing but words and colons? Of other texts
/// nothing is said.
pub open spec fn is_verdict(text: Seq<char>, is_path: bool) -> bool {
    is_simple(text) ==> is_path == is_simple_path(text)
}

/// Is this a digit?
fn digit(c: char) -> (r: bool)
    ensures
        r == is_digit(c),
{
    '0' <= c && c <= '9'
}

/// Is this a character of a word?
fn word_char(c: char) -> (r: bool)
    ensures
        r == is_word_char(c),
{
    'a' <= c && c <= 'z' || 'A' <= c && c <= 'Z' || digit(c) || c == '_'
}

/// Does this character stand between words and do nothing else?
fn blank(c: char) -> (r: bool)
    ensures
        r == is_blank(c),
{
    c == ' ' || c == '\t' || c == '\n'
}

/// Does this character open a group?
fn opening(c: char) -> (r: bool)
    ensures
        r == is_opening(c),
{
    c == '(' || c == '[' || c == '{'
}

/// Does this character open or close a group?
fn bracket(c: char) -> (r: bool)
    ensures
        r == is_bracket(c),
{
    opening(c) || c == ')' || c == ']' || c == '}'
}

/// Is this a character of an operator?
fn operator(c: char) -> (r: bool)
    ensures
        r == is_operator(c),
{
    c == '!' || c == '%' || c == '&' || c == '*' || c == '+' || c == ',' || c == '-' || c == '.'
        || c == '/' || c == ':' || c == ';' || c == '<' || c == '=' || c == '>' || c == '?' || c
        == '@' || c == '^' || c == '|'
}

/// Where the word ends that goes on at position `k`.
fn find_word_end(text: &str, k: usize) -> (r: usize)
    requires
        k <= text@.len(),
    ensures
        r == word_end(text@, k as int),
        k <= r <= text@.len(),
{
    let n = text.unicode_len();
    let mut i: usize = k;
    while i < n && word_char(text.get_char(i))
        invariant
            n == text@.len(),
            k <= i <= n,
            word_end(text@, k as int) == word_end(text@, i as int),
        decreases n - i,
    {
        i = i + 1;
    }
    i
}

/// Where the digits end that go on at position `k`.
fn find_digits_end(text: &str, k: usize) -> (r: usize)
    requires
        k <= text@.len(),
    ensures
        r == digits_end(text@, k as int),
        k <= r <= text@.len(),
{
    let n = text.unicode_len();
    let mut i: usize = k;
    while i < n && (digit(text.get_char(i)) || text.get_char(i) == '_')
        invariant
            n == text@.len(),
            k <= i <= n,
            digits_end(text@, k as int) == digits_end(text@, i as int),
        decreases n - i,
    {
        i = i + 1;
    }
    i
}

/// Where the blanks end that go on at position `k`.
fn find_blanks_end(text: &str, k: usize) -> (r: usize)
    requires
        k <= text@.len(),
    ensures
        r == blanks_end(text@, k as int),
        k <= r <= text@.len(),
{
    let n = text.unicode_len();
    let mut i: usize = k;
    while i < n && blank(text.get_char(i))
        invariant
            n == text@.len(),
            k <= i <= n,
            blanks_end(text@, k as int) == blanks_end(text@, i as int),
        decreases n - i,
    {
        i = i + 1;
    }
    i
}

/// Is the character at position `i` a part of a token that is known?
fn finds_token(text: &str, i: usize) -> (r: bool)
    requires
        i < text@.len(),
    ensures
        r == is_token_at(text@, i as int),
{
    let n = text.unicode_len();
    let c = text.get_char(i);
    let starts = i == 0 || !word_char(text.get_char(i - 1));
    if word_char(c) {
        if starts && digit(c) {
            let e = find_digits_end(text, i);
            return e == n || !word_char(text.get_char(e)) || text.get_char(e) == 'u'
                || text.get_char(e) == 'i';
        }
        return true;
    }
    if c == '\'' {
        if !starts || i + 1 == n {
            return false;
        }
        let d = text.get_char(i + 1);
        if !word_char(d) || digit(d) {
            return false;
        }
        let e = find_word_end(text, i + 1);
        return e == n || text.get_char(e) != '\'';
    }
    if c == '/' && i + 1 < n && (text.get_char(i + 1) == '/' || text.get_char(i + 1) == '*') {
        return false;
    }
    operator(c) || bracket(c) || blank(c)
}

/// Are the brackets in a text closed in order?
fn finds_balance(text: &str) -> (r: bool)
    ensures
        r == is_balanced(text@, 0, Seq::empty()),
{
    let n = text.unicode_len();
    let mut open: Vec<char> = Vec::new();
    let mut i: usize = 0;
    while i < n
        invariant
            n == text@.len(),
            i <= n,
            is_balanced(text@, 0, Seq::empty()) == is_balanced(text@, i as int, open@),
        decreases n - i,
    {
        let c = text.get_char(i);
        if opening(c) {
            open.push(c);
        } else if bracket(c) {
            match open.pop() {
                None => {
                    return false;
                },
                Some(o) => {
                    if !(o == '(' && c == ')' || o == '[' && c == ']' || o == '{' && c == '}') {
                        return false;
                    }
                },
            }
        }
        i = i + 1;
    }
    open.len() == 0
}

/// Does a list end at position `i` that has a `dyn` right behind it, with a
/// lifetime right behind that?
fn finds_bound_lifetime(text: &str, i: usize) -> (r: bool)
    requires
        i < text@.len(),
    ensures
        r == binds_lifetime_at(text@, i as int),
{
    let n = text.unicode_len();
    proof {
        reveal_strlit("dyn");
    }
    if text.get_char(i) != '>' || i > 0 && text.get_char(i - 1) == '-' {
        return false;
    }
    let object = find_blanks_end(text, i + 1);
    if !matches_at(text, "dyn", object) {
        return false;
    }
    let bound = find_blanks_end(text, object + 3);
    bound < n && text.get_char(bound) == '\''
}

/// Can a text be split into tokens, and these be parsed, without a panic?
pub fn is_quiet_path(text: &str) -> (r: bool)
    ensures
        r == is_quiet_text(text@),
{
    let n = text.unicode_len();
    let mut i: usize = 0;
    while i < n
        invariant
            n == text@.len(),
            i <= n,
            forall|j: int| 0 <= j < i ==> #[trigger] is_token_at(text@, j),
            forall|j: int| 0 <= j < i ==> !#[trigger] binds_lifetime_at(text@, j),
        decreases n - i,
    {
        if !finds_token(text, i) || finds_bound_lifetime(text, i) {
            return false;
        }
        i = i + 1;
    }
    finds_balance(text)
}

/// Is a string the path of an item? Calls `syn::parse_str` for a `syn::Path`.
/// Claimed is that a text of nothing but words and colons is a path exactly if
/// it consists of names with `::` between them, and possibly in front. Which
/// other texts are paths is left unsaid: it takes the grammar of types and
/// expressions to say so, and who splits the text into tokens depends on where
/// the call is made. Inside of a procedural macro it is the compiler, which may
/// panic on what is no token, and the parser panics on literals that it does not
/// know. Everywhere it panics on a type with a lifetime right behind a `dyn` that
/// has a `for<..>` in front. Such texts are left out.
#[verifier::external_body]
fn is_path(text: &str) -> (r: bool)
    requires
        is_quiet_text(text@),
    ensures
        is_verdict(text@, r),
{
    syn::parse_str::<syn::Path>(text).is_ok()
}

/// What the attribute `#[trace..]` of a field means. `is_path` tells whether
/// the string in it, if there is one, is a path.
pub open spec fn meaning(meta: Meta, is_path: bool) -> Result<Option<Seq<char>>, DeriveError> {
    match meta {
        Meta::Word => Ok(None),
        Meta::Str(text) => if is_path {
            Ok(Some(text@))
        } else {
            Err(DeriveError::InvalidPath)
        },
        Meta::Other => Err(DeriveError::UnexpectedMeta),
        Meta::Invalid => Err(DeriveError::InvalidMeta),
    }
}

impl View for Traced {
    type V = Option<Seq<char>>;

    /// The path of the function that unmasks the field, if there is one.
    open spec fn view(&self) -> Option<Seq<char>> {
        match *self {
            Traced::Unmasked => None,
            Traced::Masked(path) => Some(path@),
        }
    }
}

/// How a field is traced that has the attribute `#[trace..]`. `is_path` tells
/// whether the string in it, if there is one, is a path.
pub fn interpret(meta: &Meta, is_path: bool) -> (r: Result<Traced, DeriveError>)
    ensures
        match r {
            Ok(traced) => meaning(*meta, is_path) == Ok::<_, DeriveError>(traced@),
            Err(e) => meaning(*meta, is_path) == Err::<Option<Seq<char>>, _>(e),
        },
        match *meta {
            Meta::Word => r matches Ok(Traced::Unmasked),
            Meta::Str(text) => if is_path {
                r matches Ok(Traced::Masked(path)) && path@ == text@
            } else {
                r matches Err(DeriveError::InvalidPath)
            },
            Meta::Other => r matches Err(DeriveError::UnexpectedMeta),
            Meta::Invalid => r matches Err(DeriveError::InvalidMeta),
        },
{
    match meta {
        Meta::Word => Ok(Traced::Unmasked),
        Meta::Str(text) => if is_path {
            Ok(Traced::Masked(text.clone()))
        } else {
            Err(DeriveError::InvalidPath)
        },
        Meta::Other => Err(DeriveError::UnexpectedMeta),
        Meta::Invalid => Err(DeriveError::InvalidMeta),
    }
}

/// Is this the attribute `#[trace..]`?
pub open spec fn is_trace(attr: Attribute) -> bool {
    attr.path@ == "trace"@
}

/// The number of the first attribute `#[trace..]`, from number `i` on.
pub open spec fn trace_position_from(attrs: Seq<Attribute>, i: int) -> Option<int>
    decreases attrs.len() - i,
{
    if i >= attrs.len() {
        None
    } else if is_trace(attrs[i]) {
        Some(i)
    } else {
        trace_position_from(attrs, i + 1)
    }
}

/// What the first attribute `#[trace..]` of a field says. It alone decides how
/// the field is traced.
pub open spec fn trace_meta(field: Field) -> Option<Meta> {
    match trace_position_from(field.attrs@, 0) {
        Some(i) => Some(field.attrs@[i].meta),
        None => None,
    }
}

/// How the derived implementation traces a field: not at all, as it is, or
/// unmasked by a function. `is_path` tells whether the string in its attribute
/// `#[trace..]`, if there is one, is a path.
pub open spec fn traced(field: Field, is_path: bool) -> Result<
    Option<Option<Seq<char>>>,
    DeriveError,
> {
    match trace_meta(field) {
        None => Ok(None),
        Some(meta) => match meaning(meta, is_path) {
            Ok(t) => Ok(Some(t)),
            Err(e) => Err(e),
        },
    }
}

/// The string in the attribute `#[trace..]` of a field, if there is one, can be
/// parsed without a panic.
pub open spec fn is_quiet(field: Field) -> bool {
    trace_meta(field) matches Some(Meta::Str(text)) ==> is_quiet_text(text@)
}

/// Is the string in the attribute `#[trace..]` of a field, if there is one, a
/// path?
pub open spec fn fits(field: Field, is_path: bool) -> bool {
    trace_meta(field) matches Some(Meta::Str(text)) ==> is_verdict(text@, is_path)
}

/// The number of the attribute of a field that decides how the field is traced:
/// its first attribute `#[trace..]`.
pub fn trace_position(field: &Field) -> (r: Option<usize>)
    ensures
        match r {
            Some(i) => {
                &&& i < field.attrs@.len()
                &&& trace_position_from(field.attrs@, 0) == Some(i as int)
            },
            None => trace_position_from(field.attrs@, 0) is None,
        },
        r matches Some(i) ==> {
            &&& field.attrs@[i as int].path@ == "trace"@
            &&& forall|j: int| 0 <= j < i ==> (#[trigger] field.attrs@[j]).path@ != "trace"@
        },
        r is None ==> forall|j: int|
            0 <= j < field.attrs@.len() ==> (#[trigger] field.attrs@[j]).path@ != "trace"@,
{
    let mut i: usize = 0;
    while i < field.attrs.len()
        invariant
            i <= field.attrs@.len(),
            trace_position_from(field.attrs@, 0) == trace_position_from(
                field.attrs@,
                i as int,
            ),
            forall|j: int| 0 <= j < i ==> (#[trigger] field.attrs@[j]).path@ != "trace"@,
        decreases field.attrs@.len() - i,
    {
        if field.attrs[i].path == "trace".to_owned() {
            return Some(i);
        }
        i = i + 1;
    }
    None
}

/// A decision on how a field is traced is this one.
pub open spec fn decides(
    r: Result<Option<Traced>, DeriveError>,
    how: Result<Option<Option<Seq<char>>>, DeriveError>,
) -> bool {
    match r {
        Ok(None) => how == Ok::<Option<Option<Seq<char>>>, DeriveError>(None),
        Ok(Some(t)) => how == Ok::<_, DeriveError>(Some(t@)),
        Err(e) => how == Err::<Option<Option<Seq<char>>>, _>(e),
    }
}

/// Decides how a field is traced. `is_path` tells whether the string in its
/// attribute `#[trace..]`, if there is one, is a path.
pub fn get_trace_with(field: &Field, is_path: bool) -> (r: Result<Option<Traced>, DeriveError>)
    ensures
        decides(r, traced(*field, is_path)),
{
    match trace_position(field) {
        None => Ok(None),
        Some(i) => match interpret(&field.attrs[i].meta, is_path) {
            Ok(t) => Ok(Some(t)),
            Err(e) => Err(e),
        },
    }
}

/// Is the string in the attribute `#[trace..]` of a field, if there is one, a
/// path? The parser decides.
fn names_path(field: &Field) -> (r: bool)
    requires
        is_quiet(*field),
    ensures
        fits(*field, r),
{
    match trace_position(field) {
        None => false,
        Some(i) => match &field.attrs[i].meta {
            Meta::Str(text) => is_path(text.as_str()),
            _ => false,
        },
    }
}

/// Can the library itself tell whether the string in the attribute `#[trace..]`
/// of a field, if there is one, is a path?
pub fn is_quiet_field(field: &Field) -> (r: bool)
    ensures
        r == is_quiet(*field),
{
    match trace_position(field) {
        None => true,
        Some(i) => match &field.attrs[i].meta {
            Meta::Str(text) => is_quiet_path(text.as_str()),
            _ => true,
        },
    }
}

/// Decides how a field is traced. Whether the string in its attribute
/// `#[trace..]`, if there is one, is a path is for the parser to tell.
pub fn get_trace(field: &Field) -> (r: Result<Option<Traced>, DeriveError>)
    requires
        is_quiet(*field),
    ensures
        exists|is_path: bool|
            fits(*field, is_path) && decides(r, #[trigger] traced(*field, is_path)),
{
    let named = names_path(field);
    let r = get_trace_with(field, named);
    proof {
        assert(decides(r, traced(*field, named)));
    }
    r
}

/// The first of the first `n` fields whose attributes are in error.
pub open spec fn first_error(
    fields: Seq<Field>,
    is_path: Seq<bool>,
    n: int,
) -> Option<DeriveError>
    decreases n,
{
    if n <= 0 {
        None
    } else {
        match first_error(fields, is_path, n - 1) {
            Some(e) => Some(e),
            None => match traced(fields[n - 1], is_path[n - 1]) {
                Ok(_) => None,
                Err(e) => Some(e),
            },
        }
    }
}

/// The positions of those among the first `n` fields that are traced as they
/// are, in order.
pub open spec fn unmasked_fields(fields: Seq<Field>, is_path: Seq<bool>, n: int) -> Seq<int>
    decreases n,
{
    if n <= 0 {
        Seq::empty()
    } else if traced(fields[n - 1], is_path[n - 1]) == Ok::<_, DeriveError>(
        Some(None::<Seq<char>>),
    ) {
        unmasked_fields(fields, is_path, n - 1).push(n - 1)
    } else {
        unmasked_fields(fields, is_path, n - 1)
    }
}

/// The positions of those among the first `n` fields that are unmasked by a
/// function, in order, with the paths of the functions.
pub open spec fn masked_fields(
    fields: Seq<Field>,
    is_path: Seq<bool>,
    n: int,
) -> Seq<(int, Seq<char>)>
    decreases n,
{
    if n <= 0 {
        Seq::empty()
    } else {
        match traced(fields[n - 1], is_path[n - 1]) {
            Ok(Some(Some(path))) => masked_fields(fields, is_path, n - 1).push((n - 1, path)),
            _ => masked_fields(fields, is_path, n - 1),
        }
    }
}

impl TracePlan {
    /// The positions of the fields that are pointers.
    pub open spec fn unmasked_view(&self) -> Seq<int> {
        self.unmasked@.map_values(|i: usize| i as int)
    }

    /// The positions of the fields that functions make pointers of, with the
    /// paths of those.
    pub open spec fn masked_view(&self) -> Seq<(int, Seq<char>)> {
        self.masked@.map_values(|m: (usize, String)| (m.0 as int, m.1@))
    }
}

/// This is what is derived for a type. `is_path` tells for each field whether
/// the string in its attribute `#[trace..]`, if there is one, is a path.
pub open spec fn derives(
    input: Data,
    is_path: Seq<bool>,
    r: Result<TracePlan, DeriveError>,
) -> bool {
    match input {
        Data::Struct(fields) => match first_error(fields@, is_path, fields@.len() as int) {
            Some(e) => r == Err::<TracePlan, _>(e),
            None => {
                &&& r is Ok
                &&& r->Ok_0.unmasked_view() == unmasked_fields(
                    fields@,
                    is_path,
                    fields@.len() as int,
                )
                &&& r->Ok_0.masked_view() == masked_fields(
                    fields@,
                    is_path,
                    fields@.len() as int,
                )
            },
        },
        _ => r == Err::<TracePlan, _>(DeriveError::NotAStruct),
    }
}

/// Decides which fields of a struct a derived `Trace` implementation traces,
/// and how. The first field whose attributes are in error decides the error.
/// `is_path` tells for each field whether the string in its attribute
/// `#[trace..]`, if there is one, is a path.
pub fn traceable_derive_with(input: &Data, is_path: &[bool]) -> (r: Result<TracePlan, DeriveError>)
    requires
        *input matches Data::Struct(fields) ==> is_path@.len() == fields@.len(),
    ensures
        derives(*input, is_path@, r),
{
    let fields = match input {
        Data::Struct(fields) => fields,
        _ => {
            return Err(DeriveError::NotAStruct);
        },
    };
    let mut plan = TracePlan { unmasked: Vec::new(), masked: Vec::new() };
    let mut i: usize = 0;
    proof {
        assert(plan.unmasked_view() =~= Seq::<int>::empty());
        assert(plan.masked_view() =~= Seq::<(int, Seq<char>)>::empty());
    }
    while i < fields.len()
        invariant
            *input == Data::Struct(*fields),
            i <= fields@.len(),
            is_path@.len() == fields@.len(),
            first_error(fields@, is_path@, i as int) is None,
            plan.unmasked_view() == unmasked_fields(fields@, is_path@, i as int),
            plan.masked_view() == masked_fields(fields@, is_path@, i as int),
        decreases fields@.len() - i,
    {
        match get_trace_with(&fields[i], is_path[i]) {
            Ok(None) => {},
            Ok(Some(Traced::Unmasked)) => {
                let ghost before = plan.unmasked_view();
                plan.unmasked.push(i);
                proof {
                    assert(plan.unmasked_view() =~= before.push(i as int));
                }
            },
            Ok(Some(Traced::Masked(path))) => {
                let ghost before = plan.masked_view();
                let ghost text = path@;
                plan.masked.push((i, path));
                proof {
                    assert(plan.masked_view() =~= before.push((i as int, text)));
                }
            },
            Err(e) => {
                proof {
                    lemma_first_error_stays(fields@, is_path@, i + 1, fields@.len() as int);
                }
                return Err(e);
            },
        }
        i = i + 1;
    }
    Ok(plan)
}

/// Decides which fields of a struct a derived `Trace` implementation traces,
/// and how. Which strings are paths is for the parser to tell.
pub fn traceable_derive(input: &Data) -> (r: Result<TracePlan, DeriveError>)
    requires
        *input matches Data::Struct(fields) ==> forall|i: int|
            0 <= i < fields@.len() ==> is_quiet(#[trigger] fields@[i]),
    ensures
        exists|is_path: Seq<bool>|
            {
                &&& *input matches Data::Struct(fields) ==> {
                    &&& is_path.len() == fields@.len()
                    &&& forall|i: int|
                        0 <= i < fields@.len() ==> fits(#[trigger] fields@[i], is_path[i])
                }
                &&& #[trigger] derives(*input, is_path, r)
            },
{
    let mut verdicts: Vec<bool> = Vec::new();
    if let Data::Struct(fields) = input {
        let mut i: usize = 0;
        while i < fields.len()
            invariant
                *input == Data::Struct(*fields),
                i <= fields@.len(),
                verdicts@.len() == i,
                forall|k: int| 0 <= k < i ==> fits(#[trigger] fields@[k], verdicts@[k]),
                forall|k: int| 0 <= k < fields@.len() ==> is_quiet(#[trigger] fields@[k]),
            decreases fields@.len() - i,
        {
            verdicts.push(names_path(&fields[i]));
            i = i + 1;
        }
    }
    let r = traceable_derive_with(input, verdicts.as_slice());
    proof {
        assert(derives(*input, verdicts@, r));
    }
    r
}

/// Later fields do not change which error is the first.
proof fn lemma_first_error_stays(fields: Seq<Field>, is_path: Seq<bool>, n: int, m: int)
    requires
        0 <= n <= m,
        first_error(fields, is_path, n) is Some,
    ensures
        first_error(fields, is_path, m) == first_error(fields, is_path, n),
    decreases m - n,
{
    if n < m {
        lemma_first_error_stays(fields, is_path, n, m - 1);
    }
}

/// The plan lists exactly the fields that are traced as they are, each of them
/// once and in order.
pub proof fn law_unmasked_fields(fields: Seq<Field>, is_path: Seq<bool>, n: int)
    requires
        0 <= n,
    ensures
        forall|i: int|
            #![trigger unmasked_fields(fields, is_path, n).contains(i)]
            unmasked_fields(fields, is_path, n).contains(i) <==> 0 <= i < n && traced(fields[i], is_path[i]) == Ok::<
                _,
                DeriveError,
            >(Some(None::<Seq<char>>)),
        forall|k: int, l: int|
            0 <= k < l < unmasked_fields(fields, is_path, n).len() ==> #[trigger] unmasked_fields(
                fields,
                is_path,
                n,
            )[k] < #[trigger] unmasked_fields(fields, is_path, n)[l],
    decreases n,
{
    let s = unmasked_fields(fields, is_path, n);
    if n > 0 {
        law_unmasked_fields(fields, is_path, n - 1);
        let t = unmasked_fields(fields, is_path, n - 1);
        assert forall|k: int| 0 <= k < t.len() implies #[trigger] t[k] < n - 1 by {
            assert(t.contains(t[k]));
        }
        assert forall|i: int| #[trigger] s.contains(i) <==> 0 <= i < n && traced(fields[i], is_path[i])
            == Ok::<_, DeriveError>(Some(None::<Seq<char>>)) by {
            if s.contains(i) {
                let k = s.index_of(i);
                if k < t.len() {
                    assert(t[k] == i);
                }
            }
            if t.contains(i) {
                assert(s[t.index_of(i)] == i);
            }
            if i == n - 1 && s.len() > t.len() {
                assert(s[t.len() as int] == i);
            }
        }
    }
}

/// The plan lists exactly the fields that a function unmasks, each of them once
/// and in order, with the path of the function.
pub proof fn law_masked_fields(fields: Seq<Field>, is_path: Seq<bool>, n: int)
    requires
        0 <= n,
    ensures
        forall|m: (int, Seq<char>)|
            #![trigger masked_fields(fields, is_path, n).contains(m)]
            masked_fields(fields, is_path, n).contains(m) <==> 0 <= m.0 < n && traced(fields[m.0], is_path[m.0]) == Ok::<
                _,
                DeriveError,
            >(Some(Some(m.1))),
        forall|k: int, l: int|
            0 <= k < l < masked_fields(fields, is_path, n).len() ==> (#[trigger] masked_fields(
                fields,
                is_path,
                n,
            )[k]).0 < (#[trigger] masked_fields(fields, is_path, n)[l]).0,
    decreases n,
{
    let s = masked_fields(fields, is_path, n);
    if n > 0 {
        law_masked_fields(fields, is_path, n - 1);
        let t = masked_fields(fields, is_path, n - 1);
        assert forall|k: int| 0 <= k < t.len() implies (#[trigger] t[k]).0 < n - 1 by {
            assert(t.contains(t[k]));
        }
        assert forall|m: (int, Seq<char>)| #[trigger] s.contains(m) <==> 0 <= m.0 < n && traced(
            fields[m.0],
            is_path[m.0],
        ) == Ok::<_, DeriveError>(Some(Some(m.1))) by {
            if s.contains(m) {
                let k = s.index_of(m);
                if k < t.len() {
                    assert(t[k] == m);
                }
            }
            if t.contains(m) {
                assert(s[t.index_of(m)] == m);
            }
            if m.0 == n - 1 && s.len() > t.len() {
                assert(s[t.len() as int].0 == m.0);
                if traced(fields[m.0], is_path[m.0]) == Ok::<_, DeriveError>(Some(Some(m.1))) {
                    assert(s[t.len() as int] == m);
                }
            }
        }
    }
}

/// A field is unmasked by a function whose path consists of names. Any other text
/// of nothing but words and colons is in error.
pub proof fn law_names_unmask(field: Field, text: String, is_path: bool)
    requires
        trace_meta(field) == Some(Meta::Str(text)),
        is_simple(text@),
        fits(field, is_path),
    ensures
        traced(field, is_path) == (if is_simple_path(text@) {
            Ok::<_, DeriveError>(Some(Some(text@)))
        } else {
            Err(DeriveError::InvalidPath)
        }),
{
}

/// Whether a string is a path matters only where an attribute `#[trace..]` has
/// one.
pub proof fn law_only_strings_are_parsed(field: Field)
    requires
        !(trace_meta(field) matches Some(Meta::Str(_))),
    ensures
        traced(field, true) == traced(field, false),
{
}

/// The first attribute of a field that is named `trace` decides, wherever it
/// stands.
pub proof fn law_first_trace_attribute_decides(field: Field, p: int)
    requires
        0 <= p < field.attrs@.len(),
        field.attrs@[p].path@ == "trace"@,
        forall|j: int| 0 <= j < p ==> (#[trigger] field.attrs@[j]).path@ != "trace"@,
    ensures
        trace_position_from(field.attrs@, 0) == Some(p),
        trace_meta(field) == Some(field.attrs@[p].meta),
{
    lemma_position(field.attrs@, 0, p);
}

/// The first attribute that is named `trace`, from number `i` on, is found.
proof fn lemma_position(attrs: Seq<Attribute>, i: int, p: int)
    requires
        0 <= i <= p < attrs.len(),
        attrs[p].path@ == "trace"@,
        forall|j: int| i <= j < p ==> (#[trigger] attrs[j]).path@ != "trace"@,
    ensures
        trace_position_from(attrs, i) == Some(p),
    decreases p - i,
{
    if i < p {
        assert(attrs[i].path@ != "trace"@);
        lemma_position(attrs, i + 1, p);
    }
}

/// A field none of whose attributes is named `trace` is not traced, and never in
/// error.
pub proof fn law_other_fields_are_not_traced(field: Field, is_path: bool)
    requires
        forall|j: int|
            0 <= j < field.attrs@.len() ==> (#[trigger] field.attrs@[j]).path@ != "trace"@,
    ensures
        trace_meta(field) is None,
        traced(field, is_path) == Ok::<Option<Option<Seq<char>>>, DeriveError>(None),
        is_quiet(field),
        fits(field, is_path),
{
    lemma_no_position(field.attrs@, 0);
}

/// Where no attribute is named `trace`, none is found.
proof fn lemma_no_position(attrs: Seq<Attribute>, i: int)
    requires
        0 <= i <= attrs.len(),
        forall|j: int| i <= j < attrs.len() ==> (#[trigger] attrs[j]).path@ != "trace"@,
    ensures
        trace_position_from(attrs, i) is None,
    decreases attrs.len() - i,
{
    if i < attrs.len() {
        assert(attrs[i].path@ != "trace"@);
        lemma_no_position(attrs, i + 1);
    }
}

/// How a field is traced, by what its first attribute named `trace` says. With
/// nothing, it is traced as it is. With a string that is a path, it is unmasked by
/// that path. With anything else it is in error.
pub proof fn law_how_a_field_is_traced(field: Field, p: int, is_path: bool)
    requires
        0 <= p < field.attrs@.len(),
        field.attrs@[p].path@ == "trace"@,
        forall|j: int| 0 <= j < p ==> (#[trigger] field.attrs@[j]).path@ != "trace"@,
    ensures
        match field.attrs@[p].meta {
            Meta::Word => traced(field, is_path) == Ok::<_, DeriveError>(Some(None::<Seq<char>>)),
            Meta::Str(text) => if is_path {
                traced(field, is_path) == Ok::<_, DeriveError>(Some(Some(text@)))
            } else {
                traced(field, is_path) == Err::<Option<Option<Seq<char>>>, _>(
                    DeriveError::InvalidPath,
                )
            },
            Meta::Other => traced(field, is_path) == Err::<Option<Option<Seq<char>>>, _>(
                DeriveError::UnexpectedMeta,
            ),
            Meta::Invalid => traced(field, is_path) == Err::<Option<Option<Seq<char>>>, _>(
                DeriveError::InvalidMeta,
            ),
        },
        is_quiet(field) <==> (field.attrs@[p].meta matches Meta::Str(text) ==> is_quiet_text(
            text@,
        )),
        fits(field, is_path) <==> (field.attrs@[p].meta matches Meta::Str(text) ==> is_verdict(
            text@,
            is_path,
        )),
{
    law_first_trace_attribute_decides(field, p);
}

/// A decision is what was decided: nothing, a field as it is, a field with a path,
/// or an error.
pub proof fn law_decision(
    r: Result<Option<Traced>, DeriveError>,
    how: Result<Option<Option<Seq<char>>>, DeriveError>,
)
    requires
        decides(r, how),
    ensures
        r matches Ok(None) <==> how == Ok::<Option<Option<Seq<char>>>, DeriveError>(None),
        r matches Ok(Some(Traced::Unmasked)) <==> how == Ok::<_, DeriveError>(
            Some(None::<Seq<char>>),
        ),
        r matches Ok(Some(Traced::Masked(path))) ==> how == Ok::<_, DeriveError>(Some(Some(path@))),
        r matches Err(e) ==> how == Err::<Option<Option<Seq<char>>>, _>(e),
        how matches Err(e) ==> r matches Err(f) && f == e,
        how matches Ok(Some(Some(text))) ==> r matches Ok(Some(Traced::Masked(path))) && path@
            == text,
{
}

/// Only structs are derived for. The first field in error decides the error, and
/// there is a plan exactly when no field is.
pub proof fn law_first_field_in_error_decides(
    fields: Vec<Field>,
    is_path: Seq<bool>,
    r: Result<TracePlan, DeriveError>,
    i: int,
)
    requires
        derives(Data::Struct(fields), is_path, r),
        0 <= i < fields@.len(),
    ensures
        r is Ok ==> traced(fields@[i], is_path[i]) is Ok,
        traced(fields@[i], is_path[i]) is Err && (forall|j: int|
            0 <= j < i ==> traced(#[trigger] fields@[j], is_path[j]) is Ok) ==> r is Err
            && traced(fields@[i], is_path[i]) == Err::<Option<Option<Seq<char>>>, _>(r->Err_0),
        (forall|j: int|
            0 <= j < fields@.len() ==> traced(#[trigger] fields@[j], is_path[j]) is Ok) ==> r is Ok,
{
    let n = fields@.len() as int;
    lemma_first_error(fields@, is_path, n, i);
    if forall|j: int| 0 <= j < n ==> traced(#[trigger] fields@[j], is_path[j]) is Ok {
        lemma_no_error(fields@, is_path, n);
    }
    if traced(fields@[i], is_path[i]) is Err && (forall|j: int|
        0 <= j < i ==> traced(#[trigger] fields@[j], is_path[j]) is Ok) {
        lemma_no_error(fields@, is_path, i);
        lemma_first_error_stays(fields@, is_path, i + 1, n);
    }
}

/// A field in error makes for an error.
proof fn lemma_first_error(fields: Seq<Field>, is_path: Seq<bool>, n: int, i: int)
    requires
        0 <= i < n,
    ensures
        traced(fields[i], is_path[i]) is Err ==> first_error(fields, is_path, n) is Some,
    decreases n,
{
    if i < n - 1 {
        lemma_first_error(fields, is_path, n - 1, i);
    }
}

/// Without a field in error there is no error.
proof fn lemma_no_error(fields: Seq<Field>, is_path: Seq<bool>, n: int)
    requires
        forall|j: int| 0 <= j < n ==> traced(#[trigger] fields[j], is_path[j]) is Ok,
    ensures
        first_error(fields, is_path, n) is None,
    decreases n,
{
    if n > 0 {
        lemma_no_error(fields, is_path, n - 1);
        assert(traced(fields[n - 1], is_path[n - 1]) is Ok);
    }
}

/// Nothing is derived for enums and unions.
pub proof fn law_only_structs(is_path: Seq<bool>, r: Result<TracePlan, DeriveError>)
    ensures
        derives(Data::Enum, is_path, r) ==> r matches Err(DeriveError::NotAStruct),
        derives(Data::Union, is_path, r) ==> r matches Err(DeriveError::NotAStruct),
{
}

/// The plan for a struct names exactly the fields that are traced: those that are
/// traced as they are among the unmasked ones, those that a path unmasks among the
/// masked ones, with that path, each once and in order.
pub proof fn law_plan_names_the_traced_fields(
    fields: Vec<Field>,
    is_path: Seq<bool>,
    plan: TracePlan,
    i: int,
    text: Seq<char>,
)
    requires
        derives(Data::Struct(fields), is_path, Ok(plan)),
        0 <= i < fields@.len(),
    ensures
        traced(fields@[i], is_path[i]) == Ok::<_, DeriveError>(Some(None::<Seq<char>>))
            <==> exists|k: int| 0 <= k < plan.unmasked@.len() && #[trigger] plan.unmasked@[k] == i,
        traced(fields@[i], is_path[i]) == Ok::<_, DeriveError>(Some(Some(text))) <==> exists|
            k: int,
        |
            0 <= k < plan.masked@.len() && (#[trigger] plan.masked@[k]).0 == i
                && plan.masked@[k].1@ == text,
        forall|k: int, l: int|
            0 <= k < l < plan.unmasked@.len() ==> #[trigger] plan.unmasked@[k]
                < #[trigger] plan.unmasked@[l],
        forall|k: int, l: int|
            0 <= k < l < plan.masked@.len() ==> (#[trigger] plan.masked@[k]).0 < (
            #[trigger] plan.masked@[l]).0,
{
    let n = fields@.len() as int;
    let u = unmasked_fields(fields@, is_path, n);
    let m = masked_fields(fields@, is_path, n);
    law_unmasked_fields(fields@, is_path, n);
    law_masked_fields(fields@, is_path, n);
    assert(u.len() == plan.unmasked@.len() && m.len() == plan.masked@.len());
    assert forall|k: int| 0 <= k < u.len() implies u[k] == #[trigger] plan.unmasked@[k] by {
        assert(plan.unmasked_view()[k] == plan.unmasked@[k]);
    }
    assert forall|k: int| 0 <= k < m.len() implies m[k].0 == (#[trigger] plan.masked@[k]).0
        && m[k].1 == plan.masked@[k].1@ by {
        assert(plan.masked_view()[k] == (plan.masked@[k].0 as int, plan.masked@[k].1@));
    }
    if u.contains(i) {
        let k = u.index_of(i);
        assert(plan.unmasked@[k] == i);
    }
    if exists|k: int| 0 <= k < plan.unmasked@.len() && #[trigger] plan.unmasked@[k] == i {
        let k = choose|k: int| 0 <= k < plan.unmasked@.len() && #[trigger] plan.unmasked@[k] == i;
        assert(u[k] == i);
        assert(u.contains(i));
    }
    if m.contains((i, text)) {
        let k = m.index_of((i, text));
        assert(plan.masked@[k].0 == i && plan.masked@[k].1@ == text);
    }
    if exists|k: int|
        0 <= k < plan.masked@.len() && (#[trigger] plan.masked@[k]).0 == i && plan.masked@[k].1@
            == text {
        let k = choose|k: int|
            0 <= k < plan.masked@.len() && (#[trigger] plan.masked@[k]).0 == i
                && plan.masked@[k].1@ == text;
        assert(m[k] == (i, text));
        assert(m.contains((i, text)));
    }
    assert forall|k: int, l: int| 0 <= k < l < plan.unmasked@.len() implies #[trigger] plan.unmasked@[k]
        < #[trigger] plan.unmasked@[l] by {
        assert(u[k] < u[l]);
    }
    assert forall|k: int, l: int| 0 <= k < l < plan.masked@.len() implies (
    #[trigger] plan.masked@[k]).0 < (#[trigger] plan.masked@[l]).0 by {
        assert(m[k].0 < m[l].0);
    }
}

/// Words consist of letters, digits and underscores.
pub proof fn law_word_characters(c: char)
    ensures
        is_digit(c) <==> c == '0' || c == '1' || c == '2' || c == '3' || c == '4' || c == '5' || c
            == '6' || c == '7' || c == '8' || c == '9',
        is_word_char(c) <==> 'a' <= c <= 'z' || 'A' <= c <= 'Z' || '0' <= c <= '9' || c == '_',
        is_blank(c) ==> !is_word_char(c) && !is_operator(c) && !is_bracket(c),
        is_bracket(c) ==> !is_word_char(c) && !is_operator(c),
        is_operator(c) ==> !is_word_char(c),
{
}

/// Where words, digits and blanks end: at the first character that is none of them,
/// however far it is.
pub proof fn law_ends(text: Seq<char>, k: int, e: int)
    requires
        0 <= k <= e <= text.len(),
    ensures
        (forall|j: int| k <= j < e ==> is_word_char(#[trigger] text[j])) && (e == text.len()
            || !is_word_char(text[e])) ==> word_end(text, k) == e,
        (forall|j: int| k <= j < e ==> is_digit(#[trigger] text[j]) || text[j] == '_') && (e
            == text.len() || !(is_digit(text[e]) || text[e] == '_')) ==> digits_end(text, k) == e,
        (forall|j: int|
            k <= j < e ==> (#[trigger] text[j]) == ' ' || text[j] == '\t' || text[j] == '\n') && (e
            == text.len() || !(text[e] == ' ' || text[e] == '\t' || text[e] == '\n'))
            ==> blanks_end(text, k) == e,
    decreases e - k,
{
    if k < e {
        law_ends(text, k + 1, e);
        assert(text[k] == text[k]);
    }
}

/// A quiet text holds nothing but words, blanks, brackets, lifetimes and operators.
/// No comment starts in it. A quote starts a lifetime: it does not end a word, and
/// no second quote ends the name behind it. A number has nothing but digits, or a
/// suffix behind them.
pub proof fn law_quiet_texts_hold_tokens_only(text: Seq<char>, i: int, e: int)
    requires
        is_quiet_text(text),
        0 <= i < e <= text.len(),
    ensures
        ({
            let c = text[i];
            ||| 'a' <= c <= 'z' || 'A' <= c <= 'Z' || '0' <= c <= '9' || c == '_'
            ||| c == ' ' || c == '\t' || c == '\n' || c == '\''
            ||| c == '(' || c == ')' || c == '[' || c == ']' || c == '{' || c == '}'
            ||| c == '!' || c == '%' || c == '&' || c == '*' || c == '+' || c == ',' || c == '-'
            ||| c == '.' || c == '/' || c == ':' || c == ';' || c == '<' || c == '=' || c == '>'
            ||| c == '?' || c == '@' || c == '^' || c == '|'
        }),
        text[i] == '/' && i + 1 < text.len() ==> text[i + 1] != '/' && text[i + 1] != '*',
        text[i] == '\'' ==> {
            &&& i > 0 ==> !is_word_char(text[i - 1])
            &&& i + 1 < text.len() && is_word_char(text[i + 1]) && !is_digit(text[i + 1])
            &&& e < text.len() && (forall|j: int| i < j < e ==> is_word_char(#[trigger] text[j]))
                && i + 1 < e ==> text[e] != '\''
        },
        is_digit(text[i]) && (i == 0 || !is_word_char(text[i - 1])) && e < text.len() && (forall|
            j: int,
        |
            i <= j < e ==> is_digit(#[trigger] text[j])) && is_word_char(text[e]) && !is_digit(
            text[e],
        ) ==> text[e] == 'u' || text[e] == 'i' || text[e] == '_',
{
    assert(is_token_at(text, i));
    if text[i] == '\'' && e < text.len() && (forall|j: int|
        i < j < e ==> is_word_char(#[trigger] text[j])) && i + 1 < e && text[e] == '\'' {
        law_ends(text, i + 1, e);
    }
    if is_digit(text[i]) && (i == 0 || !is_word_char(text[i - 1])) && e < text.len() && (forall|
        j: int,
    |
        i <= j < e ==> is_digit(#[trigger] text[j])) && is_word_char(text[e]) && !is_digit(text[e])
        && text[e] != '_' {
        law_ends(text, i, e);
    }
}

/// No text is quiet that holds a `>`, other than that of an arrow, with `dyn`
/// behind it and a quote behind that, however many blanks stand between them.
pub proof fn law_quiet_texts_bind_no_lifetimes(text: Seq<char>, i: int, k: int, q: int)
    requires
        0 <= i < k,
        k + 3 <= q < text.len(),
        text[i] == '>',
        i == 0 || text[i - 1] != '-',
        forall|j: int|
            i < j < k ==> (#[trigger] text[j]) == ' ' || text[j] == '\t' || text[j] == '\n',
        text[k] == 'd' && text[k + 1] == 'y' && text[k + 2] == 'n',
        forall|j: int|
            k + 3 <= j < q ==> (#[trigger] text[j]) == ' ' || text[j] == '\t' || text[j] == '\n',
        text[q] == '\'',
    ensures
        !is_quiet_text(text),
{
    law_ends(text, i + 1, k);
    law_ends(text, k + 3, q);
    reveal_strlit("dyn");
    assert(text.subrange(k, k + 3) =~= "dyn"@);
    assert(binds_lifetime_at(text, i));
}

/// In a quiet text as many brackets of each kind close as open.
pub proof fn law_quiet_texts_close_what_they_open(text: Seq<char>)
    requires
        is_quiet_text(text),
    ensures
        text.to_multiset().count('(') == text.to_multiset().count(')'),
        text.to_multiset().count('[') == text.to_multiset().count(']'),
        text.to_multiset().count('{') == text.to_multiset().count('}'),
{
    let none = Seq::<char>::empty();
    lemma_balance(text, 0, none, '(', ')');
    lemma_balance(text, 0, none, '[', ']');
    lemma_balance(text, 0, none, '{', '}');
    assert(text.skip(0) =~= text);
    none.to_multiset_ensures();
}

/// From a position on, as many brackets of a kind close as are open or open later.
proof fn lemma_balance(text: Seq<char>, k: int, open: Seq<char>, o: char, c: char)
    requires
        0 <= k <= text.len(),
        is_balanced(text, k, open),
        o == '(' && c == ')' || o == '[' && c == ']' || o == '{' && c == '}',
    ensures
        open.to_multiset().count(o) + text.skip(k).to_multiset().count(o) == text.skip(
            k,
        ).to_multiset().count(c),
    decreases text.len() - k,
{
    broadcast use vstd::seq_lib::group_to_multiset_ensures;

    let rest = text.skip(k);
    if k == text.len() {
        assert(rest =~= Seq::<char>::empty());
        assert(open =~= Seq::<char>::empty());
    } else {
        let x = text[k];
        let tail = text.skip(k + 1);
        assert(rest =~= seq![x] + tail);
        vstd::seq_lib::lemma_multiset_commutative(seq![x], tail);
        assert(seq![x] =~= Seq::<char>::empty().push(x));
        assert(rest.to_multiset() =~= seq![x].to_multiset().add(tail.to_multiset()));
        if is_opening(x) {
            lemma_balance(text, k + 1, open.push(x), o, c);
        } else if is_bracket(x) {
            lemma_balance(text, k + 1, open.drop_last(), o, c);
            assert(open =~= open.drop_last().push(open.last()));
        } else {
            lemma_balance(text, k + 1, open, o, c);
        }
    }
}

/// Texts of letters, underscores, blanks and operators other than slashes are
/// quiet, however long they are.
pub proof fn law_plain_texts_are_quiet(text: Seq<char>)
    requires
        forall|i: int|
            0 <= i < text.len() ==> {
                let c = #[trigger] text[i];
                ||| 'a' <= c <= 'z' || 'A' <= c <= 'Z' || c == '_' || c == ' ' || c == '\n'
                ||| c == ':' || c == '<' || c == '>' || c == ',' || c == '&' || c == '*' || c == '+'
                ||| c == '-' || c == '=' || c == '!' || c == ';' || c == '.' || c == '?'
            },
    ensures
        is_quiet_text(text),
{
    assert forall|i: int| 0 <= i < text.len() implies #[trigger] is_token_at(text, i) by {
        assert(text[i] == text[i]);
    }
    assert forall|i: int| 0 <= i < text.len() implies !#[trigger] binds_lifetime_at(text, i) by {
        let q = blanks_end(text, blanks_end(text, i + 1) + 3);
        if binds_lifetime_at(text, i) {
            assert(q < text.len());
            lemma_blanks_end(text, i + 1);
            lemma_blanks_end(text, blanks_end(text, i + 1) + 3);
            assert(text[q] != '\'');
        }
    }
    lemma_no_brackets(text, 0);
}

/// Blanks do not end before they start.
proof fn lemma_blanks_end(text: Seq<char>, k: int)
    ensures
        k <= blanks_end(text, k),
    decreases text.len() - k,
{
    if 0 <= k < text.len() && is_blank(text[k]) {
        lemma_blanks_end(text, k + 1);
    }
}

/// Without brackets nothing is left open.
proof fn lemma_no_brackets(text: Seq<char>, k: int)
    requires
        0 <= k <= text.len(),
        forall|i: int| 0 <= i < text.len() ==> !is_bracket(#[trigger] text[i]),
    ensures
        is_balanced(text, k, Seq::empty()),
    decreases text.len() - k,
{
    if k < text.len() {
        assert(!is_bracket(text[k]));
        lemma_no_brackets(text, k + 1);
    }
}

/// Keywords have lower case letters only, and eight of them at most: words that
/// are longer, or have another character in them, are none. The underscore alone
/// is one.
pub proof fn law_keywords_are_short(word: Seq<char>, i: int)
    requires
        word.len() > 8 || word.len() >= 2 && 0 <= i < word.len() && !('a' <= word[i] <= 'z'),
    ensures
        !is_keyword(word),
{
    reveal_strlit("_");
    reveal_strlit("abstract");
    reveal_strlit("as");
    reveal_strlit("become");
    reveal_strlit("box");
    reveal_strlit("break");
    reveal_strlit("const");
    reveal_strlit("continue");
    reveal_strlit("do");
    reveal_strlit("else");
    reveal_strlit("enum");
    reveal_strlit("false");
    reveal_strlit("final");
    reveal_strlit("fn");
    reveal_strlit("for");
    reveal_strlit("if");
    reveal_strlit("impl");
    reveal_strlit("in");
    reveal_strlit("let");
    reveal_strlit("loop");
    reveal_strlit("macro");
    reveal_strlit("match");
    reveal_strlit("mod");
    reveal_strlit("move");
    reveal_strlit("mut");
    reveal_strlit("override");
    reveal_strlit("priv");
    reveal_strlit("pub");
    reveal_strlit("ref");
    reveal_strlit("return");
    reveal_strlit("static");
    reveal_strlit("struct");
    reveal_strlit("trait");
    reveal_strlit("true");
    reveal_strlit("type");
    reveal_strlit("typeof");
    reveal_strlit("unsafe");
    reveal_strlit("unsized");
    reveal_strlit("use");
    reveal_strlit("virtual");
    reveal_strlit("where");
    reveal_strlit("while");
    reveal_strlit("yield");
}

/// A single name is a path, however long it is: letters, digits and underscores,
/// the first no digit, and no keyword.
pub proof fn law_names_are_paths(word: Seq<char>)
    requires
        word.len() > 0,
        forall|i: int| 0 <= i < word.len() ==> is_word_char(#[trigger] word[i]),
        !is_digit(word[0]),
        !is_keyword(word),
    ensures
        is_simple(word),
        is_simple_path(word),
{
    let n = word.len() as int;
    law_ends(word, 0, n);
    assert(word.subrange(0, n) =~= word);
    assert(is_word_char(word[0]));
}

/// A path with `::` and a name behind it, or in front of it, is a path.
pub proof fn law_paths_of_names_grow(word: Seq<char>, path: Seq<char>)
    requires
        word.len() > 0,
        forall|i: int| 0 <= i < word.len() ==> is_word_char(#[trigger] word[i]),
        !is_digit(word[0]),
        !is_keyword(word),
        is_names_from(path, 0),
    ensures
        is_simple_path(path),
        is_names_from(word + seq![':', ':'] + path, 0),
        is_simple_path(word + seq![':', ':'] + path),
        is_simple_path(seq![':', ':'] + path),
{
    let all = word + seq![':', ':'] + path;
    let n = word.len() as int;
    assert forall|j: int| 0 <= j < n implies is_word_char(#[trigger] all[j]) by {
        assert(all[j] == word[j]);
    }
    assert(all[n] == ':' && all[n + 1] == ':');
    law_ends(all, 0, n);
    assert(all.subrange(0, n) =~= word);
    assert(all[0] == word[0]);
    lemma_names_shift(word + seq![':', ':'], path, 0);
    assert(pair_at(all, n, ':', ':'));
    let rooted = seq![':', ':'] + path;
    lemma_names_shift(seq![':', ':'], path, 0);
    assert(is_word_char(path[0])) by {
        assert(word_end(path, 0) > 0);
    }
    assert(rooted[0] == ':' && rooted[1] == ':');
}

/// What stands in front of names does not matter.
proof fn lemma_names_shift(front: Seq<char>, path: Seq<char>, k: int)
    requires
        0 <= k <= path.len(),
    ensures
        is_names_from(front + path, front.len() + k) == is_names_from(path, k),
        word_end(front + path, front.len() + k) == front.len() + word_end(path, k),
    decreases path.len() - k,
{
    let all = front + path;
    let n = front.len();
    lemma_word_end_shift(front, path, k);
    let e = word_end(path, k);
    lemma_word_end(path, k);
    if k < e {
        assert(all[n + k] == path[k]);
        assert(all.subrange(n + k, n + e) =~= path.subrange(k, e));
        if e < path.len() {
            assert(all[n + e] == path[e]);
            if e + 1 < path.len() {
                assert(all[n + e + 1] == path[e + 1]);
                lemma_names_shift(front, path, e + 2);
                assert(n + (e + 2) == (n + e) + 2);
            }
        }
    }
}

/// A word does not end before it starts, nor behind the text.
proof fn lemma_word_end(text: Seq<char>, k: int)
    requires
        0 <= k <= text.len(),
    ensures
        k <= word_end(text, k) <= text.len(),
    decreases text.len() - k,
{
    if k < text.len() && is_word_char(text[k]) {
        lemma_word_end(text, k + 1);
    }
}

/// What stands in front of a word does not matter.
proof fn lemma_word_end_shift(front: Seq<char>, text: Seq<char>, k: int)
    requires
        0 <= k <= text.len(),
    ensures
        word_end(front + text, front.len() + k) == front.len() + word_end(text, k),
    decreases text.len() - k,
{
    let all = front + text;
    let n = front.len();
    if k < text.len() {
        assert(all[n + k] == text[k]);
        if is_word_char(text[k]) {
            lemma_word_end_shift(front, text, k + 1);
            assert(n + (k + 1) == (n + k) + 1);
        }
    }
}

/// The empty text is no path, nor is a text that starts with a digit or with
/// anything but a word or a colon. A verdict on a text of nothing but words and
/// colons is whether it is a path of names.
pub proof fn law_other_texts_are_no_paths(text: Seq<char>)
    ensures
        is_simple(text) <==> forall|i: int|
            0 <= i < text.len() ==> {
                let c = #[trigger] text[i];
                'a' <= c <= 'z' || 'A' <= c <= 'Z' || '0' <= c <= '9' || c == '_' || c == ':'
            },
        text.len() == 0 ==> !is_simple_path(text),
        text.len() > 0 && is_digit(text[0]) ==> !is_simple_path(text),
        text.len() > 0 && !is_word_char(text[0]) && text[0] != ':' ==> !is_simple_path(text),
        forall|b: bool| is_verdict(text, b) && is_simple(text) ==> (b <==> is_simple_path(text)),
{
    if is_simple(text) {
        assert forall|i: int| 0 <= i < text.len() implies {
            let c = #[trigger] text[i];
            'a' <= c <= 'z' || 'A' <= c <= 'Z' || '0' <= c <= '9' || c == '_' || c == ':'
        } by {
            assert(is_word_char(text[i]) || text[i] == ':');
        }
    }
}

/// What a token is, character by character. Letters and underscores are parts of
/// words, and so are digits inside of words. A word that starts with a digit is a
/// number: behind its digits, however many they are, it ends or goes on with a `u`
/// or an `i`. A quote starts a lifetime: a name follows that no quote ends.
/// Everything else is an operator, a bracket or a blank.
pub proof fn law_tokens(text: Seq<char>, i: int, e: int)
    requires
        0 <= i < e <= text.len(),
    ensures
        is_word_char(text[i]) && (!is_digit(text[i]) || i > 0 && is_word_char(text[i - 1]))
            ==> is_token_at(text, i),
        is_digit(text[i]) && (i == 0 || !is_word_char(text[i - 1])) && (forall|j: int|
            i <= j < e ==> is_digit(#[trigger] text[j]) || text[j] == '_') && (e == text.len()
            || !(is_digit(text[e]) || text[e] == '_')) ==> (is_token_at(text, i) <==> e
            == text.len() || !is_word_char(text[e]) || text[e] == 'u' || text[e] == 'i'),
        text[i] == '\'' && i + 1 < e && (forall|j: int|
            i < j < e ==> is_word_char(#[trigger] text[j])) && (e == text.len() || !is_word_char(
            text[e],
        )) ==> (is_token_at(text, i) <==> (i == 0 || !is_word_char(text[i - 1])) && !is_digit(
            text[i + 1],
        ) && (e == text.len() || text[e] != '\'')),
        text[i] == '/' ==> (is_token_at(text, i) <==> i + 1 == text.len() || text[i + 1] != '/'
            && text[i + 1] != '*'),
        ({
            let c = text[i];
            ||| c == ' ' || c == '\t' || c == '\n'
            ||| c == '(' || c == ')' || c == '[' || c == ']' || c == '{' || c == '}'
            ||| c == '!' || c == '%' || c == '&' || c == '*' || c == '+' || c == ',' || c == '-'
            ||| c == '.' || c == ':' || c == ';' || c == '<' || c == '=' || c == '>' || c == '?'
            ||| c == '@' || c == '^' || c == '|'
        }) ==> is_token_at(text, i),
{
    if is_digit(text[i]) && (i == 0 || !is_word_char(text[i - 1])) && (forall|j: int|
        i <= j < e ==> is_digit(#[trigger] text[j]) || text[j] == '_') && (e == text.len() || !(
    is_digit(text[e]) || text[e] == '_')) {
        law_ends(text, i, e);
    }
    if text[i] == '\'' && i + 1 < e && (forall|j: int|
        i < j < e ==> is_word_char(#[trigger] text[j])) && (e == text.len() || !is_word_char(
        text[e],
    )) {
        law_ends(text, i + 1, e);
        assert(is_word_char(text[i + 1]));
    }
}

/// A text is quiet as soon as all its characters are parts of tokens, its brackets
/// are closed in order, and no list in it has a `dyn` with a quote behind it.
pub proof fn law_what_is_quiet(text: Seq<char>)
    requires
        forall|i: int| 0 <= i < text.len() ==> #[trigger] is_token_at(text, i),
        is_balanced(text, 0, Seq::empty()),
        forall|i: int, k: int, q: int|
            0 <= i < k && k + 3 <= q < text.len() && #[trigger] text[i] == '>' && (i == 0 || text[i
                - 1] != '-') && #[trigger] text[k] == 'd' && text[k + 1] == 'y' && text[k + 2]
                == 'n' && blanks_end(text, i + 1) == k && blanks_end(text, k + 3) == q
                ==> #[trigger] text[q] != '\'',
    ensures
        is_quiet_text(text),
{
    assert forall|i: int| 0 <= i < text.len() implies !#[trigger] binds_lifetime_at(text, i) by {
        if binds_lifetime_at(text, i) {
            let k = blanks_end(text, i + 1);
            let q = blanks_end(text, k + 3);
            lemma_blanks_end(text, i + 1);
            lemma_blanks_end(text, k + 3);
            reveal_strlit("dyn");
            let part = text.subrange(k, k + 3);
            assert(part[0] == 'd' && part[1] == 'y' && part[2] == 'n');
            assert(text[k] == 'd' && text[k + 1] == 'y' && text[k + 2] == 'n');
            assert(text[q] != '\'');
        }
    }
}

/// How brackets are closed in order: an opening one is open from then on, a closing
/// one closes the one that was opened last and must be of its kind, and in the end
/// none is open. Other characters do not matter.
pub proof fn law_brackets_close_in_order(c: char, rest: Seq<char>, open: Seq<char>)
    ensures
        is_balanced(Seq::<char>::empty(), 0, open) <==> open.len() == 0,
        c == '(' || c == '[' || c == '{' ==> (is_balanced(seq![c] + rest, 0, open) <==> is_balanced(
            rest,
            0,
            open.push(c),
        )),
        c == ')' ==> (is_balanced(seq![c] + rest, 0, open) <==> open.len() > 0 && open.last() == '('
            && is_balanced(rest, 0, open.drop_last())),
        c == ']' ==> (is_balanced(seq![c] + rest, 0, open) <==> open.len() > 0 && open.last() == '['
            && is_balanced(rest, 0, open.drop_last())),
        c == '}' ==> (is_balanced(seq![c] + rest, 0, open) <==> open.len() > 0 && open.last() == '{'
            && is_balanced(rest, 0, open.drop_last())),
        c != '(' && c != ')' && c != '[' && c != ']' && c != '{' && c != '}' ==> (is_balanced(
            seq![c] + rest,
            0,
            open,
        ) <==> is_balanced(rest, 0, open)),
{
    let text = seq![c] + rest;
    assert(text[0] == c);
    lemma_balance_shift(c, rest, 0, open);
    lemma_balance_shift(c, rest, 0, open.push(c));
    lemma_balance_shift(c, rest, 0, open.drop_last());
}

/// A character in front of brackets that were not reached yet does not matter.
proof fn lemma_balance_shift(c: char, rest: Seq<char>, k: int, open: Seq<char>)
    requires
        0 <= k <= rest.len(),
    ensures
        is_balanced(seq![c] + rest, k + 1, open) == is_balanced(rest, k, open),
    decreases rest.len() - k,
{
    let text = seq![c] + rest;
    if k < rest.len() {
        assert(text[k + 1] == rest[k]);
        lemma_balance_shift(c, rest, k + 1, open);
        lemma_balance_shift(c, rest, k + 1, open.push(rest[k]));
        lemma_balance_shift(c, rest, k + 1, open.drop_last());
    }
}

/// What follows on a name and `::` decides whether all of it is a path of names. A
/// name with anything else behind it is none.
pub proof fn law_what_follows_a_name(word: Seq<char>, c: char, rest: Seq<char>)
    requires
        word.len() > 0,
        forall|i: int| 0 <= i < word.len() ==> is_word_char(#[trigger] word[i]),
        !is_digit(word[0]),
        !is_keyword(word),
        !is_word_char(c),
    ensures
        is_names_from(word + seq![':', ':'] + rest, 0) <==> is_names_from(rest, 0),
        c != ':' ==> !is_names_from(word + seq![c] + rest, 0),
        rest.len() == 0 || rest[0] != ':' ==> !is_names_from(word + seq![':'] + rest, 0),
{
    let n = word.len() as int;
    let all = word + seq![':', ':'] + rest;
    assert forall|j: int| 0 <= j < n implies is_word_char(#[trigger] all[j]) by {
        assert(all[j] == word[j]);
    }
    assert(all[n] == ':' && all[n + 1] == ':');
    law_ends(all, 0, n);
    assert(all.subrange(0, n) =~= word);
    assert(all[0] == word[0]);
    lemma_names_shift(word + seq![':', ':'], rest, 0);
    let other = word + seq![c] + rest;
    assert forall|j: int| 0 <= j < n implies is_word_char(#[trigger] other[j]) by {
        assert(other[j] == word[j]);
    }
    assert(other[n] == c);
    law_ends(other, 0, n);
    let one = word + seq![':'] + rest;
    assert forall|j: int| 0 <= j < n implies is_word_char(#[trigger] one[j]) by {
        assert(one[j] == word[j]);
    }
    assert(one[n] == ':');
    if rest.len() > 0 {
        assert(one[n + 1] == rest[0]);
    }
    law_ends(one, 0, n);
}

} // verus!
