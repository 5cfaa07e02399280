use vstd::prelude::*;

verus! {

/// Bytes that end a bare number in a JSON source.
pub open spec fn is_number_terminator(b: u8) -> bool {
    b == 0x20 || b == 0x0a || b == 0x0d || b == 0x09 || b == 0x2c || b == 0x5d || b == 0x7d
}

pub open spec fn is_ascii_alpha(b: u8) -> bool {
    (0x41 <= b && b <= 0x5a) || (0x61 <= b && b <= 0x7a)
}

pub open spec fn is_ascii_space(b: u8) -> bool {
    b == 0x20 || b == 0x0a || b == 0x0d || b == 0x09 || b == 0x0c
}

pub open spec fn min_int(a: int, b: int) -> int {
    if a <= b { a } else { b }
}

pub open spec fn max_nat(a: nat, b: nat) -> nat {
    if a >= b { a } else { b }
}

/// Position of the quote that closes a string whose content starts at `i`,
/// or the end of the input; a backslash skips the byte after it.
pub open spec fn string_close(b: Seq<u8>, i: int) -> int
    decreases b.len() - i,
{
    if i < 0 || i >= b.len() {
        b.len() as int
    } else if b[i] == 0x5c {
        string_close(b, min_int(i + 2, b.len() as int))
    } else if b[i] == 0x22 {
        i
    } else {
        string_close(b, i + 1)
    }
}

/// End of a bare number whose remaining bytes start at `i`.
pub open spec fn number_end(b: Seq<u8>, i: int) -> int
    decreases b.len() - i,
{
    if i < 0 || i >= b.len() || is_number_terminator(b[i]) {
        if i < 0 { 0 } else if i > b.len() { b.len() as int } else { i }
    } else {
        number_end(b, i + 1)
    }
}

/// End of a run of ASCII letters starting at `i`.
pub open spec fn word_end(b: Seq<u8>, i: int) -> int
    decreases b.len() - i,
{
    if i < 0 || i >= b.len() || !is_ascii_alpha(b[i]) {
        if i < 0 { 0 } else if i > b.len() { b.len() as int } else { i }
    } else {
        word_end(b, i + 1)
    }
}

pub proof fn lemma_string_close(b: Seq<u8>, i: int)
    requires
        0 <= i <= b.len(),
    ensures
        i <= string_close(b, i) <= b.len(),
        string_close(b, i) < b.len() ==> b[string_close(b, i)] == 0x22,
    decreases b.len() - i,
{
    if i < b.len() {
        if b[i] == 0x5c {
            lemma_string_close(b, min_int(i + 2, b.len() as int));
        } else if b[i] != 0x22 {
            lemma_string_close(b, i + 1);
        }
    }
}

pub proof fn lemma_number_end(b: Seq<u8>, i: int)
    requires
        0 <= i <= b.len(),
    ensures
        i <= number_end(b, i) <= b.len(),
    decreases b.len() - i,
{
    if i < b.len() && !is_number_terminator(b[i]) {
        lemma_number_end(b, i + 1);
    }
}

pub proof fn lemma_word_end(b: Seq<u8>, i: int)
    requires
        0 <= i <= b.len(),
    ensures
        i <= word_end(b, i) <= b.len(),
    decreases b.len() - i,
{
    if i < b.len() && is_ascii_alpha(b[i]) {
        lemma_word_end(b, i + 1);
    }
}

/// Token count and maximum nesting depth of a JSON source, from position
/// `i` onwards with the counts so far: one token per container opening,
/// string, number or literal; depth is the nesting at which a token starts.
pub open spec fn token_scan(b: Seq<u8>, i: int, tokens: nat, depth: nat, nesting: nat) -> (nat, nat)
    decreases b.len() - i,
{
    if i < 0 || i >= b.len() {
        (tokens, depth)
    } else {
        let c = b[i];
        if c == 0x7b || c == 0x5b {
            token_scan(b, i + 1, tokens + 1, max_nat(depth, nesting), nesting + 1)
        } else if c == 0x7d || c == 0x5d {
            token_scan(b, i + 1, tokens, depth, if nesting > 0 { (nesting - 1) as nat } else { 0 })
        } else if c == 0x22 {
            let close = string_close(b, i + 1);
            if close < i + 1 {
                (tokens, depth)
            } else {
                token_scan(b, if close < b.len() { close + 1 } else { b.len() as int }, tokens + 1, max_nat(depth, nesting), nesting)
            }
        } else if c == 0x2d || (0x30 <= c && c <= 0x39) {
            let end = number_end(b, i + 1);
            if end < i + 1 || end > b.len() {
                (tokens, depth)
            } else {
                token_scan(b, end, tokens + 1, max_nat(depth, nesting), nesting)
            }
        } else if c == 0x74 || c == 0x66 || c == 0x6e {
            let end = word_end(b, i + 1);
            if end < i + 1 || end > b.len() {
                (tokens, depth)
            } else {
                token_scan(b, end, tokens + 1, max_nat(depth, nesting), nesting)
            }
        } else {
            token_scan(b, i + 1, tokens, depth, nesting)
        }
    }
}

/// Token count and maximum nesting depth of a JSON source.
pub open spec fn spec_source_metrics(b: Seq<u8>) -> (nat, nat) {
    token_scan(b, 0, 0, 0, 0)
}

fn skip_string(bytes: &[u8], start: usize) -> (r: usize)
    requires
        start <= bytes.len(),
    ensures
        r == string_close(bytes@, start as int),
{
    let mut index = start;
    while index < bytes.len()
        invariant
            start <= index <= bytes.len(),
            string_close(bytes@, index as int) == string_close(bytes@, start as int),
        decreases bytes.len() - index,
    {
        if bytes[index] == 0x5c {
            index = if bytes.len() - index >= 2 { index + 2 } else { bytes.len() };
        } else if bytes[index] == 0x22 {
            return index;
        } else {
            index += 1;
        }
    }
    index
}

fn skip_number(bytes: &[u8], start: usize) -> (r: usize)
    requires
        start <= bytes.len(),
    ensures
        r == number_end(bytes@, start as int),
{
    let mut index = start;
    while index < bytes.len() && !(bytes[index] == 0x20 || bytes[index] == 0x0a || bytes[index]
        == 0x0d || bytes[index] == 0x09 || bytes[index] == 0x2c || bytes[index] == 0x5d
        || bytes[index] == 0x7d)
        invariant
            start <= index <= bytes.len(),
            number_end(bytes@, index as int) == number_end(bytes@, start as int),
        decreases bytes.len() - index,
    {
        index += 1;
    }
    index
}

fn skip_word(bytes: &[u8], start: usize) -> (r: usize)
    requires
        start <= bytes.len(),
    ensures
        r == word_end(bytes@, start as int),
{
    let mut index = start;
    while index < bytes.len() && ((0x41 <= bytes[index] && bytes[index] <= 0x5a) || (0x61
        <= bytes[index] && bytes[index] <= 0x7a))
        invariant
            start <= index <= bytes.len(),
            word_end(bytes@, index as int) == word_end(bytes@, start as int),
        decreases bytes.len() - index,
    {
        index += 1;
    }
    index
}

/// Counts tokens and the maximum nesting depth of a JSON source without
/// parsing it.
pub fn source_metrics(bytes: &[u8]) -> (r: (usize, usize))
    ensures
        (r.0 as nat, r.1 as nat) == spec_source_metrics(bytes@),
{
    let mut tokens: usize = 0;
    let mut depth: usize = 0;
    let mut nesting: usize = 0;
    let mut index: usize = 0;
    while index < bytes.len()
        invariant
            index <= bytes.len(),
            tokens <= index,
            nesting <= index,
            depth <= index,
            token_scan(bytes@, index as int, tokens as nat, depth as nat, nesting as nat)
                == spec_source_metrics(bytes@),
        decreases bytes.len() - index,
    {
        let c = bytes[index];
        if c == 0x7b || c == 0x5b {
            tokens += 1;
            if nesting > depth {
                depth = nesting;
            }
            nesting += 1;
            index += 1;
        } else if c == 0x7d || c == 0x5d {
            if nesting > 0 {
                nesting -= 1;
            }
            index += 1;
        } else if c == 0x22 {
            proof {
                lemma_string_close(bytes@, index + 1);
            }
            tokens += 1;
            if nesting > depth {
                depth = nesting;
            }
            let close = skip_string(bytes, index + 1);
            index = if close < bytes.len() { close + 1 } else { bytes.len() };
        } else if c == 0x2d || (0x30 <= c && c <= 0x39) {
            proof {
                lemma_number_end(bytes@, index + 1);
            }
            tokens += 1;
            if nesting > depth {
                depth = nesting;
            }
            index = skip_number(bytes, index + 1);
        } else if c == 0x74 || c == 0x66 || c == 0x6e {
            proof {
                lemma_word_end(bytes@, index + 1);
            }
            tokens += 1;
            if nesting > depth {
                depth = nesting;
            }
            index = skip_word(bytes, index + 1);
        } else {
            index += 1;
        }
    }
    (tokens, depth)
}

/// The value of an ASCII hexadecimal digit.
pub open spec fn hex_digit(b: u8) -> Option<nat> {
    if 0x30 <= b && b <= 0x39 {
        Some((b - 0x30) as nat)
    } else if 0x61 <= b && b <= 0x66 {
        Some((b - 0x61 + 10) as nat)
    } else if 0x41 <= b && b <= 0x46 {
        Some((b - 0x41 + 10) as nat)
    } else {
        None
    }
}

/// The value of the four hexadecimal digits at `i..i + 4`, when they exist.
pub open spec fn hex_quad(b: Seq<u8>, i: int) -> Option<nat> {
    if 0 <= i && i + 4 <= b.len() && hex_digit(b[i]) is Some && hex_digit(b[i + 1]) is Some
        && hex_digit(b[i + 2]) is Some && hex_digit(b[i + 3]) is Some {
        Some(
            hex_digit(b[i])->0 * 4096 + hex_digit(b[i + 1])->0 * 256 + hex_digit(b[i + 2])->0 * 16
                + hex_digit(b[i + 3])->0,
        )
    } else {
        None
    }
}

fn hex_digit_value(b: u8) -> (r: Option<u16>)
    ensures
        match r {
            Some(v) => hex_digit(b) == Some(v as nat) && v < 16,
            None => hex_digit(b) is None,
        },
{
    if 0x30 <= b && b <= 0x39 {
        Some((b - 0x30) as u16)
    } else if 0x61 <= b && b <= 0x66 {
        Some((b - 0x61 + 10) as u16)
    } else if 0x41 <= b && b <= 0x46 {
        Some((b - 0x41 + 10) as u16)
    } else {
        None
    }
}

/// Reads four hexadecimal digits at `start`, when the input holds them.
pub fn parse_hex_quad(bytes: &[u8], start: usize) -> (r: Option<u16>)
    ensures
        match r {
            Some(v) => hex_quad(bytes@, start as int) == Some(v as nat),
            None => hex_quad(bytes@, start as int) is None,
        },
{
    if start > bytes.len() || bytes.len() - start < 4 {
        return None;
    }
    let a = match hex_digit_value(bytes[start]) {
        Some(v) => v,
        None => return None,
    };
    let b = match hex_digit_value(bytes[start + 1]) {
        Some(v) => v,
        None => return None,
    };
    let c = match hex_digit_value(bytes[start + 2]) {
        Some(v) => v,
        None => return None,
    };
    let d = match hex_digit_value(bytes[start + 3]) {
        Some(v) => v,
        None => return None,
    };
    Some(a * 4096 + b * 256 + c * 16 + d)
}

/// UTF-8 width of the character a `\uXXXX` escape denotes; a lone
/// surrogate counts as three bytes.
pub open spec fn escape_width(code: nat) -> nat {
    if code < 0x80 {
        1
    } else if code < 0x800 {
        2
    } else {
        3
    }
}

/// Decoded UTF-8 length of JSON string content `b[i..]`, added to `acc`.
pub open spec fn decoded_len_from(b: Seq<u8>, i: int, acc: nat) -> nat
    decreases b.len() - i,
{
    if i < 0 || i >= b.len() {
        acc
    } else if b[i] != 0x5c {
        decoded_len_from(b, i + 1, acc + 1)
    } else if i + 1 >= b.len() {
        acc
    } else if b[i + 1] != 0x75 {
        decoded_len_from(b, i + 2, acc + 1)
    } else {
        match hex_quad(b, i + 2) {
            None => decoded_len_from(b, i + 2, acc),
            Some(high) => {
                if 0xd800 <= high <= 0xdbff && i + 8 <= b.len() && b[i + 6] == 0x5c && b[i + 7]
                    == 0x75 && hex_quad(b, i + 8) is Some && 0xdc00 <= hex_quad(b, i + 8)->0
                    <= 0xdfff {
                    decoded_len_from(b, i + 12, acc + 4)
                } else {
                    decoded_len_from(b, i + 6, acc + escape_width(high))
                }
            },
        }
    }
}

/// The UTF-8 length of the text that JSON string content `b` decodes to
/// (escapes decoded, a valid surrogate pair counting as one character).
pub open spec fn spec_decoded_len(b: Seq<u8>) -> nat {
    decoded_len_from(b, 0, 0)
}

/// Decoded UTF-8 length of JSON string content.
pub fn json_string_decoded_len(bytes: &[u8]) -> (r: usize)
    ensures
        r as nat == spec_decoded_len(bytes@),
{
    let mut decoded: usize = 0;
    let mut index: usize = 0;
    while index < bytes.len()
        invariant
            index <= bytes.len(),
            decoded <= index,
            decoded_len_from(bytes@, index as int, decoded as nat) == spec_decoded_len(bytes@),
        ensures
            decoded as nat == spec_decoded_len(bytes@),
        decreases bytes.len() - index,
    {
        if bytes[index] != 0x5c {
            decoded += 1;
            index += 1;
            continue;
        }
        if bytes.len() - index <= 1 {
            break;
        }
        if bytes[index + 1] != 0x75 {
            decoded += 1;
            index += 2;
            continue;
        }
        let high = match parse_hex_quad(bytes, index + 2) {
            Some(h) => h,
            None => {
                index += 2;
                continue;
            },
        };
        if 0xd800 <= high && high <= 0xdbff && bytes.len() - index >= 8 && bytes[index + 6] == 0x5c
            && bytes[index + 7] == 0x75 {
            if let Some(low) = parse_hex_quad(bytes, index + 8) {
                if 0xdc00 <= low && low <= 0xdfff {
                    decoded += 4;
                    index += 12;
                    continue;
                }
            }
        }
        decoded += if high < 0x80 { 1 } else if high < 0x800 { 2 } else { 3 };
        index += 6;
    }
    decoded
}

/// Counts a JSON source reports before parsing: value nodes, object members,
/// the longest collection and the longest decoded scalar.
pub struct SourceCounts {
    pub nodes: nat,
    pub members: nat,
    pub collection_length: nat,
    pub scalar_bytes: nat,
}

/// The open collections of a source scan: each opening byte with its length so far.
pub open spec fn bump_top(stack: Seq<(u8, nat)>, kind: u8) -> Seq<(u8, nat)> {
    if stack.len() > 0 && stack.last().0 == kind {
        stack.update(stack.len() - 1, (kind, stack.last().1 + 1))
    } else {
        stack
    }
}

/// Position of the first byte at or after `i` that is not ASCII whitespace.
pub open spec fn skip_space(b: Seq<u8>, i: int) -> int
    decreases b.len() - i,
{
    if 0 <= i < b.len() && is_ascii_space(b[i]) {
        skip_space(b, i + 1)
    } else {
        i
    }
}

/// Largest length among the open collections.
pub open spec fn stack_max(stack: Seq<(u8, nat)>) -> nat
    decreases stack.len(),
{
    if stack.len() == 0 {
        0
    } else {
        max_nat(stack_max(stack.drop_last()), stack.last().1)
    }
}

pub open spec fn with_scalar(c: SourceCounts, bytes: nat) -> SourceCounts {
    SourceCounts { scalar_bytes: max_nat(c.scalar_bytes, bytes), ..c }
}

/// The source counts of `b[i..]`, continuing from counts `c` and open collections `stack`.
pub open spec fn value_scan(b: Seq<u8>, i: int, c: SourceCounts, stack: Seq<(u8, nat)>) -> SourceCounts
    decreases b.len() - i,
{
    if i < 0 || i >= b.len() {
        SourceCounts { collection_length: max_nat(c.collection_length, stack_max(stack)), ..c }
    } else {
        let x = b[i];
        if x == 0x7b || x == 0x5b {
            value_scan(b, i + 1, SourceCounts { nodes: c.nodes + 1, ..c }, bump_top(stack, 0x5b).push((x, 0)))
        } else if x == 0x7d || x == 0x5d {
            if stack.len() > 0 {
                value_scan(
                    b,
                    i + 1,
                    SourceCounts { collection_length: max_nat(c.collection_length, stack.last().1), ..c },
                    stack.drop_last(),
                )
            } else {
                value_scan(b, i + 1, c, stack)
            }
        } else if x == 0x22 {
            let close = string_close(b, i + 1);
            if close < i + 1 || close > b.len() {
                c
            } else {
                let scalar = spec_decoded_len(b.subrange(i + 1, close));
                let next = skip_space(b, close + 1);
                let after = if close < b.len() { close + 1 } else { b.len() as int };
                if 0 <= next < b.len() && b[next] == 0x3a {
                    value_scan(b, after, with_scalar(SourceCounts { members: c.members + 1, ..c }, scalar), bump_top(stack, 0x7b))
                } else {
                    value_scan(b, after, with_scalar(SourceCounts { nodes: c.nodes + 1, ..c }, scalar), bump_top(stack, 0x5b))
                }
            }
        } else if x == 0x2d || (0x30 <= x && x <= 0x39) {
            let end = number_end(b, i + 1);
            if end < i + 1 || end > b.len() {
                c
            } else {
                value_scan(b, end, with_scalar(SourceCounts { nodes: c.nodes + 1, ..c }, (end - i) as nat), bump_top(stack, 0x5b))
            }
        } else if x == 0x74 || x == 0x66 || x == 0x6e {
            let end = word_end(b, i + 1);
            if end < i + 1 || end > b.len() {
                c
            } else {
                value_scan(b, end, with_scalar(SourceCounts { nodes: c.nodes + 1, ..c }, (end - i) as nat), bump_top(stack, 0x5b))
            }
        } else {
            value_scan(b, i + 1, c, stack)
        }
    }
}

/// The source counts of a whole JSON source.
pub open spec fn spec_source_value_metrics(b: Seq<u8>) -> SourceCounts {
    value_scan(b, 0, SourceCounts { nodes: 0, members: 0, collection_length: 0, scalar_bytes: 0 }, Seq::empty())
}

/// Executable source counts.
pub struct SourceValueMetrics {
    pub nodes: usize,
    pub members: usize,
    pub collection_length: usize,
    pub scalar_bytes: usize,
}

impl SourceValueMetrics {
    pub open spec fn counts(&self) -> SourceCounts {
        SourceCounts {
            nodes: self.nodes as nat,
            members: self.members as nat,
            collection_length: self.collection_length as nat,
            scalar_bytes: self.scalar_bytes as nat,
        }
    }
}

pub open spec fn stack_view(v: Seq<(u8, usize)>) -> Seq<(u8, nat)> {
    Seq::new(v.len(), |i: int| (v[i].0, v[i].1 as nat))
}

fn bump_collection(collections: &mut Vec<(u8, usize)>, kind: u8, bound: Ghost<nat>)
    requires
        forall|j: int| 0 <= j < old(collections)@.len() ==> (#[trigger] old(collections)@[j]).1 < bound@,
        bound@ <= usize::MAX,
    ensures
        stack_view(final(collections)@) == bump_top(stack_view(old(collections)@), kind),
        final(collections)@.len() == old(collections)@.len(),
        forall|j: int| 0 <= j < final(collections)@.len() ==> (#[trigger] final(collections)@[j]).1 <= bound@,
{
    let n = collections.len();
    if n > 0 && collections[n - 1].0 == kind {
        let (k, length) = collections[n - 1];
        collections.set(n - 1, (k, length + 1));
    }
    assert(stack_view(collections@) =~= bump_top(stack_view(old(collections)@), kind));
}

fn skip_whitespace(bytes: &[u8], start: usize) -> (r: usize)
    requires
        start <= bytes.len(),
    ensures
        r as int == skip_space(bytes@, start as int),
{
    let mut next = start;
    while next < bytes.len() && (bytes[next] == 0x20 || bytes[next] == 0x0a || bytes[next] == 0x0d
        || bytes[next] == 0x09 || bytes[next] == 0x0c)
        invariant
            start <= next <= bytes.len(),
            skip_space(bytes@, next as int) == skip_space(bytes@, start as int),
        decreases bytes.len() - next,
    {
        next += 1;
    }
    next
}

/// Counts value nodes, object members, the longest collection and the longest
/// decoded scalar of a JSON source without parsing it.
pub fn source_value_metrics(bytes: &[u8]) -> (r: SourceValueMetrics)
    ensures
        r.counts() == spec_source_value_metrics(bytes@),
{
    let mut metrics = SourceValueMetrics { nodes: 0, members: 0, collection_length: 0, scalar_bytes: 0 };
    let mut collections: Vec<(u8, usize)> = Vec::new();
    let mut index: usize = 0;
    assert(stack_view(collections@) =~= Seq::<(u8, nat)>::empty());
    while index < bytes.len()
        invariant
            index <= bytes.len(),
            metrics.nodes <= index,
            metrics.members <= index,
            metrics.collection_length <= index,
            collections@.len() <= index,
            forall|j: int| 0 <= j < collections@.len() ==> (#[trigger] collections@[j]).1 <= index,
            value_scan(bytes@, index as int, metrics.counts(), stack_view(collections@))
                == spec_source_value_metrics(bytes@),
        decreases bytes.len() - index,
    {
        let x = bytes[index];
        if x == 0x7b || x == 0x5b {
            metrics.nodes += 1;
            bump_collection(&mut collections, 0x5b, Ghost((index + 1) as nat));
            let ghost before = stack_view(collections@);
            collections.push((x, 0));
            assert(stack_view(collections@) =~= before.push((x, 0nat)));
            index += 1;
        } else if x == 0x7d || x == 0x5d {
            if collections.len() > 0 {
                let ghost before = stack_view(collections@);
                let (_, length) = collections.pop().unwrap();
                assert(stack_view(collections@) =~= before.drop_last());
                if length > metrics.collection_length {
                    metrics.collection_length = length;
                }
            }
            index += 1;
        } else if x == 0x22 {
            let start = index + 1;
            proof {
                lemma_string_close(bytes@, start as int);
            }
            let close = skip_string(bytes, start);
            let scalar = json_string_decoded_len(&bytes[start..close]);
            let mut is_member = false;
            if close < bytes.len() {
                let next = skip_whitespace(bytes, close + 1);
                is_member = next < bytes.len() && bytes[next] == 0x3a;
            }
            proof {
                if close >= bytes.len() {
                    assert(skip_space(bytes@, close + 1) == close + 1);
                }
            }
            if is_member {
                metrics.members += 1;
                bump_collection(&mut collections, 0x7b, Ghost((index + 1) as nat));
            } else {
                metrics.nodes += 1;
                bump_collection(&mut collections, 0x5b, Ghost((index + 1) as nat));
            }
            if scalar > metrics.scalar_bytes {
                metrics.scalar_bytes = scalar;
            }
            index = if close < bytes.len() { close + 1 } else { bytes.len() };
        } else if x == 0x2d || (0x30 <= x && x <= 0x39) {
            proof {
                lemma_number_end(bytes@, index + 1);
            }
            let end = skip_number(bytes, index + 1);
            metrics.nodes += 1;
            if end - index > metrics.scalar_bytes {
                metrics.scalar_bytes = end - index;
            }
            bump_collection(&mut collections, 0x5b, Ghost((index + 1) as nat));
            index = end;
        } else if x == 0x74 || x == 0x66 || x == 0x6e {
            proof {
                lemma_word_end(bytes@, index + 1);
            }
            let end = skip_word(bytes, index + 1);
            metrics.nodes += 1;
            if end - index > metrics.scalar_bytes {
                metrics.scalar_bytes = end - index;
            }
            bump_collection(&mut collections, 0x5b, Ghost((index + 1) as nat));
            index = end;
        } else {
            index += 1;
        }
    }
    let ghost sv = stack_view(collections@);
    let ghost init = metrics.collection_length as nat;
    let ghost rest = metrics.counts();
    assert(sv.take(0) =~= Seq::<(u8, nat)>::empty());
    let mut k: usize = 0;
    while k < collections.len()
        invariant
            k <= collections.len(),
            sv == stack_view(collections@),
            metrics.collection_length as nat == max_nat(init, stack_max(sv.take(k as int))),
            metrics.nodes == rest.nodes,
            metrics.members == rest.members,
            metrics.scalar_bytes == rest.scalar_bytes,
        decreases collections.len() - k,
    {
        assert(sv.take(k + 1).drop_last() =~= sv.take(k as int));
        if collections[k].1 > metrics.collection_length {
            metrics.collection_length = collections[k].1;
        }
        k += 1;
    }
    assert(sv.take(collections.len() as int) =~= sv);
    metrics
}

} // verus!
