use vstd::prelude::*;

use crate::locations::place_lt;
use crate::text::{char_of_digit, chars_of, digit_char, nat_text, str_eq, string_from_chars, string_push, text_le_exec};

verus! {

/// RFC 6901 JSON Pointer text: empty, or `/`-led with every `~` escaping `0` or `1`.
pub open spec fn is_pointer_text(s: Seq<char>) -> bool {
    s.len() == 0 || (s[0] == '/' && tildes_escaped(s))
}

/// Every `~` in `s` is followed by `0` or `1`.
pub open spec fn tildes_escaped(s: Seq<char>) -> bool {
    forall|i: int| 0 <= i < s.len() && #[trigger] s[i] == '~' ==> i + 1 < s.len() && (s[i + 1] == '0' || s[i + 1] == '1')
}

/// The escaped form of one reference token (`~` as `~0`, `/` as `~1`).
pub open spec fn escape_token(t: Seq<char>) -> Seq<char>
    decreases t.len(),
{
    if t.len() == 0 {
        Seq::empty()
    } else {
        escape_token(t.drop_last()) + escape_char(t.last())
    }
}

pub open spec fn escape_char(c: char) -> Seq<char> {
    if c == '~' {
        seq!['~', '0']
    } else if c == '/' {
        seq!['~', '1']
    } else {
        seq![c]
    }
}

/// `pointer` extended by one escaped reference token.
pub open spec fn append_token_spec(pointer: Seq<char>, token: Seq<char>) -> Seq<char> {
    pointer + seq!['/'] + escape_token(token)
}

/// `pointer` extended by an array index token.
pub open spec fn append_index_spec(pointer: Seq<char>, index: nat) -> Seq<char> {
    pointer + seq!['/'] + nat_text(index)
}

/// Pointer `p` equals or lies under pointer `prefix`, comparing whole tokens.
pub open spec fn pointer_starts_with(p: Seq<char>, prefix: Seq<char>) -> bool {
    prefix.len() <= p.len() && p.take(prefix.len() as int) == prefix && (prefix.len() == p.len()
        || p[prefix.len() as int] == '/')
}

pub proof fn lemma_escape_token(t: Seq<char>)
    ensures
        tildes_escaped(escape_token(t)),
        escape_token(t).len() > 0 ==> escape_token(t).last() != '~',
        forall|i: int| 0 <= i < escape_token(t).len() ==> #[trigger] escape_token(t)[i] != '/',
    decreases t.len(),
{
    if t.len() > 0 {
        lemma_escape_token(t.drop_last());
        let a = escape_token(t.drop_last());
        let b = escape_char(t.last());
        assert(escape_token(t) == a + b);
        assert forall|i: int| 0 <= i < (a + b).len() && #[trigger] (a + b)[i] == '~' implies i + 1 < (a + b).len()
            && ((a + b)[i + 1] == '0' || (a + b)[i + 1] == '1') by {
            if i < a.len() {
                if i + 1 == a.len() {
                    assert(a.last() == a[i]);
                }
            }
        }
    }
}

proof fn lemma_text_no_tilde_digits(n: nat)
    ensures
        forall|i: int| 0 <= i < nat_text(n).len() ==> #[trigger] nat_text(n)[i] != '~' && nat_text(n)[i] != '/',
        nat_text(n).len() > 0,
    decreases n,
{
    if n >= 10 {
        lemma_text_no_tilde_digits(n / 10);
        assert forall|i: int| 0 <= i < nat_text(n).len() implies #[trigger] nat_text(n)[i] != '~' && nat_text(n)[i] != '/' by {
            if i < nat_text(n / 10).len() {
                assert(nat_text(n)[i] == nat_text(n / 10)[i]);
            } else {
                assert(nat_text(n)[i] == digit_char(n % 10));
            }
        }
    }
}

pub proof fn lemma_append_token_valid(p: Seq<char>, t: Seq<char>)
    requires
        is_pointer_text(p),
    ensures
        is_pointer_text(append_token_spec(p, t)),
{
    lemma_escape_token(t);
    let e = escape_token(t);
    let r = p + seq!['/'] + e;
    assert(r[0] == '/');
    assert forall|i: int| 0 <= i < r.len() && #[trigger] r[i] == '~' implies i + 1 < r.len() && (r[i + 1] == '0'
        || r[i + 1] == '1') by {
        if i < p.len() {
            assert(r[i] == p[i]);
            if i + 1 < p.len() {
                assert(r[i + 1] == p[i + 1]);
            }
        } else if i > p.len() {
            assert(r[i] == e[i - p.len() - 1]);
            assert(r[i + 1] == e[i - p.len()]);
        }
    }
}

pub proof fn lemma_append_index_valid(p: Seq<char>, n: nat)
    requires
        is_pointer_text(p),
    ensures
        is_pointer_text(append_index_spec(p, n)),
{
    lemma_text_no_tilde_digits(n);
    let e = nat_text(n);
    let r = p + seq!['/'] + e;
    assert(r[0] == '/');
    assert forall|i: int| 0 <= i < r.len() && #[trigger] r[i] == '~' implies i + 1 < r.len() && (r[i + 1] == '0'
        || r[i + 1] == '1') by {
        if i < p.len() {
            assert(r[i] == p[i]);
            if i + 1 < p.len() {
                assert(r[i + 1] == p[i + 1]);
            }
        } else if i > p.len() {
            assert(r[i] == e[i - p.len() - 1]);
        }
    }
}

/// `jsonptr`'s pointer validation (`PointerBuf::parse` succeeds): the text is
/// empty, or starts with `/` and every `~` is followed by `0` or `1`.
#[verifier::external_body]
fn jsonptr_accepts(text: &str) -> (r: bool)
    ensures
        r == is_pointer_text(text@),
{
    jsonptr::PointerBuf::parse(text).is_ok()
}

/// `jsonptr`'s `Pointer::starts_with` on two valid pointers: `pointer` begins
/// with the text of `prefix` and the next byte, if any, is a `/`.
#[verifier::external_body]
fn jsonptr_starts_with(pointer: &str, prefix: &str) -> (r: bool)
    requires
        is_pointer_text(pointer@),
        is_pointer_text(prefix@),
    ensures
        r == pointer_starts_with(pointer@, prefix@),
{
    match (jsonptr::Pointer::parse(pointer), jsonptr::Pointer::parse(prefix)) {
        (Ok(pointer), Ok(prefix)) => pointer.starts_with(prefix),
        _ => false,
    }
}

/// Failure to construct a validated public address value.
#[derive(Debug, Clone, Copy, PartialEq, Eq, Structural)]
#[non_exhaustive]
pub enum AddressError {
    Empty,
    InvalidJsonPointer,
    UriMustBeAbsolute,
    RetrievalUriHasFragment,
}

/// A validated RFC 6901 JSON Pointer.
#[derive(Debug, PartialEq, Eq, PartialOrd, Ord, Hash)]
pub struct JsonPointer {
    text: String,
}

impl View for JsonPointer {
    type V = Seq<char>;

    closed spec fn view(&self) -> Seq<char> {
        self.text@
    }
}

impl JsonPointer {
    #[verifier::type_invariant]
    spec fn well_formed(self) -> bool {
        is_pointer_text(self.text@)
    }

    /// Accepts `value` when it is a JSON Pointer.
    pub fn parse(value: String) -> (r: Result<JsonPointer, AddressError>)
        ensures
            match r {
                Ok(p) => is_pointer_text(value@) && p@ == value@,
                Err(e) => !is_pointer_text(value@) && e == AddressError::InvalidJsonPointer,
            },
    {
        if jsonptr_accepts(value.as_str()) {
            Ok(JsonPointer { text: value })
        } else {
            Err(AddressError::InvalidJsonPointer)
        }
    }

    /// A pointer from text already known to be valid.
    pub fn from_valid(value: String) -> (r: JsonPointer)
        requires
            is_pointer_text(value@),
        ensures
            r@ == value@,
    {
        JsonPointer { text: value }
    }

    /// The root pointer (the empty text).
    pub fn root() -> (r: JsonPointer)
        ensures
            r@ == Seq::<char>::empty(),
    {
        JsonPointer { text: String::new() }
    }

    /// The pointer's text.
    pub fn as_str(&self) -> (r: &str)
        ensures
            r@ == self@,
            is_pointer_text(self@),
    {
        proof {
            use_type_invariant(self);
        }
        self.text.as_str()
    }

    /// A pointer with the same text.
    pub fn duplicate(&self) -> (r: JsonPointer)
        ensures
            r@ == self@,
    {
        proof {
            use_type_invariant(self);
        }
        JsonPointer { text: self.text.clone() }
    }

    /// `self` lies strictly under `ancestor`.
    pub fn is_strict_descendant_of(&self, ancestor: &JsonPointer) -> (r: bool)
        ensures
            r == (self@ != ancestor@ && pointer_starts_with(self@, ancestor@)),
    {
        let own = self.as_str();
        let other = ancestor.as_str();
        !str_eq(own, other) && jsonptr_starts_with(own, other)
    }

    /// One of the two pointers lies under (or equals) the other.
    pub fn intersects(&self, other: &JsonPointer) -> (r: bool)
        ensures
            r == (pointer_starts_with(self@, other@) || pointer_starts_with(other@, self@)),
    {
        let own = self.as_str();
        let theirs = other.as_str();
        jsonptr_starts_with(own, theirs) || jsonptr_starts_with(theirs, own)
    }
}

impl Clone for JsonPointer {
    /// A pointer with the same text.
    fn clone(&self) -> (r: JsonPointer)
        ensures
            r@ == self@,
    {
        self.duplicate()
    }
}

/// Appends the escaped reference token `token` to `pointer`.
pub fn append_token(pointer: &str, token: &str) -> (r: String)
    ensures
        r@ == append_token_spec(pointer@, token@),
{
    let mut out = string_from_chars(&chars_of(pointer));
    string_push(&mut out, '/');
    let chars = chars_of(token);
    let mut i: usize = 0;
    while i < chars.len()
        invariant
            i <= chars.len(),
            out@ == pointer@ + seq!['/'] + escape_token(chars@.take(i as int)),
        decreases chars.len() - i,
    {
        let c = chars[i];
        assert(chars@.take(i + 1).drop_last() =~= chars@.take(i as int));
        if c == '~' {
            string_push(&mut out, '~');
            string_push(&mut out, '0');
        } else if c == '/' {
            string_push(&mut out, '~');
            string_push(&mut out, '1');
        } else {
            string_push(&mut out, c);
        }
        assert(out@ =~= pointer@ + seq!['/'] + escape_token(chars@.take(i + 1)));
        i += 1;
    }
    assert(chars@.take(chars.len() as int) =~= chars@);
    out
}

/// `pointer` extended by each token in turn, escaped.
pub open spec fn append_tokens_spec(pointer: Seq<char>, tokens: Seq<Seq<char>>) -> Seq<char>
    decreases tokens.len(),
{
    if tokens.len() == 0 {
        pointer
    } else {
        append_token_spec(append_tokens_spec(pointer, tokens.drop_last()), tokens.last())
    }
}

/// `parent` (the root when absent) extended by each of `tokens` in turn,
/// escaped.
pub fn append_pointer(parent: Option<&JsonPointer>, tokens: &Vec<&str>) -> (r: JsonPointer)
    ensures
        r@ == append_tokens_spec(
            match parent {
                Some(p) => p@,
                None => Seq::empty(),
            },
            tokens@.map_values(|t: &str| t@),
        ),
{
    let ghost start = match parent {
        Some(p) => p@,
        None => Seq::<char>::empty(),
    };
    let ghost texts = tokens@.map_values(|t: &str| t@);
    let mut pointer = match parent {
        Some(p) => string_from_chars(&chars_of(p.as_str())),
        None => String::new(),
    };
    let mut i: usize = 0;
    while i < tokens.len()
        invariant
            i <= tokens.len(),
            texts == tokens@.map_values(|t: &str| t@),
            pointer@ == append_tokens_spec(start, texts.take(i as int)),
            is_pointer_text(pointer@),
        decreases tokens.len() - i,
    {
        assert(texts.take(i + 1).drop_last() =~= texts.take(i as int));
        proof {
            lemma_append_token_valid(pointer@, tokens@[i as int]@);
        }
        pointer = append_token(pointer.as_str(), tokens[i]);
        i += 1;
    }
    assert(texts.take(i as int) =~= texts);
    JsonPointer::from_valid(pointer)
}

/// The decimal digits of `n`.
pub fn usize_text(n: usize) -> (r: Vec<char>)
    ensures
        r@ == nat_text(n as nat),
    decreases n,
{
    if n < 10 {
        let c = char_of_digit(n as u8);
        vec![c]
    } else {
        let mut head = usize_text(n / 10);
        head.push(char_of_digit((n % 10) as u8));
        head
    }
}

/// Appends the array index token `index` to `pointer`.
pub fn append_index(pointer: &str, index: usize) -> (r: String)
    ensures
        r@ == append_index_spec(pointer@, index as nat),
{
    let mut out = string_from_chars(&chars_of(pointer));
    string_push(&mut out, '/');
    let digits = usize_text(index);
    let mut i: usize = 0;
    while i < digits.len()
        invariant
            i <= digits.len(),
            out@ == pointer@ + seq!['/'] + digits@.take(i as int),
        decreases digits.len() - i,
    {
        string_push(&mut out, digits[i]);
        assert(digits@.take(i + 1) =~= digits@.take(i as int).push(digits@[i as int]));
        i += 1;
    }
    assert(digits@.take(digits.len() as int) =~= digits@);
    out
}

/// What `referencing::Uri::parse` (an absolute RFC 3986 URI) makes of a text:
/// `None` when it rejects it, otherwise whether the URI has a fragment.
pub uninterp spec fn absolute_uri_fragment(text: Seq<char>) -> Option<bool>;

/// `referencing::Uri::parse` followed by `Uri::fragment`: `None` when the text is
/// not an absolute URI, otherwise whether it carries a fragment.
#[verifier::external_body]
fn parse_absolute_uri(text: &str) -> (r: Option<bool>)
    ensures
        r == absolute_uri_fragment(text@),
{
    match referencing::Uri::parse(text.to_owned()) {
        Ok(uri) => Some(uri.fragment().is_some()),
        Err(_) => None,
    }
}

/// An absolute URI without a fragment that identifies a schema resource.
#[derive(Debug, Clone, PartialEq, Eq, PartialOrd, Ord, Hash)]
pub struct RetrievalUri {
    text: String,
}

impl View for RetrievalUri {
    type V = Seq<char>;

    closed spec fn view(&self) -> Seq<char> {
        self.text@
    }
}

impl RetrievalUri {
    /// Accepts `value` when it is an absolute URI without a fragment.
    pub fn parse(value: String) -> (r: Result<RetrievalUri, AddressError>)
        ensures
            match r {
                Ok(u) => absolute_uri_fragment(value@) == Some(false) && u@ == value@,
                Err(AddressError::UriMustBeAbsolute) => absolute_uri_fragment(value@) is None,
                Err(AddressError::RetrievalUriHasFragment) => absolute_uri_fragment(value@) == Some(true),
                Err(_) => false,
            },
    {
        match parse_absolute_uri(value.as_str()) {
            None => Err(AddressError::UriMustBeAbsolute),
            Some(true) => Err(AddressError::RetrievalUriHasFragment),
            Some(false) => Ok(RetrievalUri { text: value }),
        }
    }

    pub fn as_str(&self) -> (r: &str)
        ensures
            r@ == self@,
    {
        self.text.as_str()
    }

    /// A URI with the same text.
    pub fn duplicate(&self) -> (r: RetrievalUri)
        ensures
            r@ == self@,
    {
        RetrievalUri { text: self.text.clone() }
    }
}

/// The absolute URI that names a UI-schema extension namespace.
#[derive(Debug, Clone, PartialEq, Eq, PartialOrd, Ord, Hash)]
pub struct ExtensionNamespace {
    text: String,
}

impl View for ExtensionNamespace {
    type V = Seq<char>;

    closed spec fn view(&self) -> Seq<char> {
        self.text@
    }
}

impl ExtensionNamespace {
    /// Accepts `value` when it is an absolute URI (a fragment is allowed).
    pub fn parse(value: String) -> (r: Result<ExtensionNamespace, AddressError>)
        ensures
            match r {
                Ok(n) => absolute_uri_fragment(value@) is Some && n@ == value@,
                Err(e) => absolute_uri_fragment(value@) is None && e == AddressError::UriMustBeAbsolute,
            },
    {
        match parse_absolute_uri(value.as_str()) {
            None => Err(AddressError::UriMustBeAbsolute),
            Some(_) => Ok(ExtensionNamespace { text: value }),
        }
    }

    pub fn as_str(&self) -> (r: &str)
        ensures
            r@ == self@,
    {
        self.text.as_str()
    }
}

/// A nonempty host-defined widget name.
#[derive(Debug, Clone, PartialEq, Eq, PartialOrd, Ord, Hash)]
pub struct WidgetSymbol {
    text: String,
}

impl View for WidgetSymbol {
    type V = Seq<char>;

    closed spec fn view(&self) -> Seq<char> {
        self.text@
    }
}

impl WidgetSymbol {
    /// Accepts any nonempty `value`.
    pub fn parse(value: String) -> (r: Result<WidgetSymbol, AddressError>)
        ensures
            match r {
                Ok(w) => value@.len() > 0 && w@ == value@,
                Err(e) => value@.len() == 0 && e == AddressError::Empty,
            },
    {
        if value.as_str().is_empty() {
            return Err(AddressError::Empty);
        }
        Ok(WidgetSymbol { text: value })
    }

    pub fn as_str(&self) -> (r: &str)
        ensures
            r@ == self@,
    {
        self.text.as_str()
    }
}

/// A data-schema location: a resource and a pointer into it.
#[derive(Debug, Clone, PartialEq, Eq, PartialOrd, Ord, Hash)]
pub struct SchemaLocation {
    resource: RetrievalUri,
    pointer: JsonPointer,
}

impl SchemaLocation {
    pub fn new(resource: RetrievalUri, pointer: JsonPointer) -> (r: SchemaLocation)
        ensures
            r.resource_spec() == resource@,
            r.pointer_spec() == pointer@,
    {
        SchemaLocation { resource, pointer }
    }

    pub closed spec fn resource_spec(&self) -> Seq<char> {
        self.resource@
    }

    pub closed spec fn pointer_spec(&self) -> Seq<char> {
        self.pointer@
    }

    pub fn resource(&self) -> (r: &RetrievalUri)
        ensures
            r@ == self.resource_spec(),
    {
        &self.resource
    }

    pub fn pointer(&self) -> (r: &JsonPointer)
        ensures
            r@ == self.pointer_spec(),
    {
        &self.pointer
    }

    /// Whether both locations name the same resource and the same pointer.
    pub fn same_location(&self, other: &SchemaLocation) -> (r: bool)
        ensures
            r == (self.resource_spec() == other.resource_spec() && self.pointer_spec() == other.pointer_spec()),
    {
        str_eq(self.resource.as_str(), other.resource.as_str()) && str_eq(self.pointer.as_str(), other.pointer.as_str())
    }

    /// Whether `self` comes strictly before `other`: by resource, then by
    /// pointer, each in code point order.
    pub fn precedes(&self, other: &SchemaLocation) -> (r: bool)
        ensures
            r == place_lt((self.resource_spec(), self.pointer_spec()), (other.resource_spec(), other.pointer_spec())),
    {
        if str_eq(self.resource.as_str(), other.resource.as_str()) {
            if str_eq(self.pointer.as_str(), other.pointer.as_str()) {
                false
            } else {
                text_le_exec(self.pointer.as_str(), other.pointer.as_str())
            }
        } else {
            text_le_exec(self.resource.as_str(), other.resource.as_str())
        }
    }
}

/// `location` moved from under `from` to under `to`, when it lies under
/// (or at) `from`.
pub open spec fn rebased(location: Seq<char>, from: Seq<char>, to: Seq<char>) -> Option<Seq<char>> {
    if pointer_starts_with(location, from) {
        Some(to + location.skip(from.len() as int))
    } else {
        None
    }
}

proof fn lemma_rebased_valid(location: Seq<char>, from: Seq<char>, to: Seq<char>)
    requires
        is_pointer_text(location),
        is_pointer_text(to),
        pointer_starts_with(location, from),
    ensures
        is_pointer_text(to + location.skip(from.len() as int)),
{
    let k = from.len() as int;
    let tail = location.skip(k);
    let r = to + tail;
    assert forall|i: int| 0 <= i < tail.len() && #[trigger] tail[i] == '~' implies i + 1 < tail.len()
        && (tail[i + 1] == '0' || tail[i + 1] == '1') by {
        assert(location[k + i] == '~');
    }
    assert forall|i: int| 0 <= i < r.len() && #[trigger] r[i] == '~' implies i + 1 < r.len()
        && (r[i + 1] == '0' || r[i + 1] == '1') by {
        if i < to.len() {
            assert(to[i] == '~');
            if i + 1 == to.len() {
                assert(false);
            }
        } else {
            assert(tail[i - to.len()] == '~');
        }
    }
    if to.len() == 0 {
        if tail.len() > 0 {
            assert(tail[0] == location[k]);
        }
        assert(r =~= tail);
    } else {
        assert(r[0] == to[0]);
    }
}

/// Moves `location` from under `from` to under `to` (see [`rebased`]).
pub fn rebase_pointer(location: &JsonPointer, from: &JsonPointer, to: &JsonPointer) -> (r: Option<JsonPointer>)
    ensures
        match rebased(location@, from@, to@) {
            Some(p) => r matches Some(q) && q@ == p,
            None => r is None,
        },
{
    let own = location.as_str();
    let base = from.as_str();
    if !jsonptr_starts_with(own, base) {
        return None;
    }
    let chars = chars_of(own);
    let base_len = chars_of(base).len();
    let mut out = chars_of(to.as_str());
    let ghost head = out@;
    let mut i = base_len;
    while i < chars.len()
        invariant
            base_len <= i <= chars.len(),
            out@ == head + chars@.subrange(base_len as int, i as int),
        decreases chars.len() - i,
    {
        out.push(chars[i]);
        assert(chars@.subrange(base_len as int, i + 1) =~= chars@.subrange(base_len as int, i as int).push(chars@[i as int]));
        i += 1;
    }
    assert(chars@.subrange(base_len as int, chars.len() as int) =~= chars@.skip(base_len as int));
    proof {
        lemma_rebased_valid(location@, from@, to@);
    }
    Some(JsonPointer::from_valid(string_from_chars(&out)))
}

} // verus!
