use vstd::prelude::*;
use vstd::string::StringSliceAdditionalSpecFns;

verus! {

/// Whether a byte is one of the blanks that may stand between a comma and
/// the bracket that follows it.
pub open spec fn is_blank(c: u8) -> bool {
    c == 32u8 || c == 9u8 || c == 10u8 || c == 13u8
}

/// The scanner's state after the first `i` bytes: whether it is inside a
/// string, and whether the next byte is escaped by a backslash.
pub open spec fn scan_state(b: Seq<u8>, i: nat) -> (bool, bool)
    decreases i,
{
    if i == 0 || i > b.len() {
        (false, false)
    } else {
        let prev = scan_state(b, (i - 1) as nat);
        let c = b[i - 1];
        if prev.1 {
            (prev.0, false)
        } else if c == 92u8 {
            (prev.0, true)
        } else if c == 34u8 {
            (!prev.0, false)
        } else {
            (prev.0, false)
        }
    }
}

/// Whether the first byte at or after `j` that is not blank exists and closes
/// an array or an object.
pub open spec fn closes_after(b: Seq<u8>, j: int) -> bool
    decreases b.len() - j,
{
    if j < 0 || j >= b.len() {
        false
    } else if is_blank(b[j]) {
        closes_after(b, j + 1)
    } else {
        b[j] == 93u8 || b[j] == 125u8
    }
}

/// Whether the byte at `i` is a trailing comma: a comma outside any string
/// whose next non-blank byte is `]` or `}`.
pub open spec fn is_trailing_comma(b: Seq<u8>, i: int) -> bool {
    &&& !scan_state(b, (i + 1) as nat).0
    &&& b[i] == 44u8
    &&& closes_after(b, i + 1)
}

/// The text made of the first `n` bytes with every trailing comma removed,
/// each kept byte read as the character of the same number.
pub open spec fn cleaned_prefix(b: Seq<u8>, n: nat) -> Seq<char>
    decreases n,
{
    if n == 0 || n > b.len() {
        Seq::empty()
    } else {
        let rest = cleaned_prefix(b, (n - 1) as nat);
        if is_trailing_comma(b, n - 1) {
            rest
        } else {
            rest.push(b[n - 1] as char)
        }
    }
}

/// Appends a character to a string.
#[verifier::external_body]
fn push_char(s: &mut String, c: char)
    ensures
        final(s)@ == old(s)@.push(c),
{
    s.push(c);
}

/// Removes the trailing commas (a comma outside any string that is followed,
/// after blanks only, by `]` or `}`) that some files carry and that JSON
/// forbids; every other byte is kept, read as the character of the same number.
pub fn clean_json(input: &str) -> (output: String)
    ensures
        output@ == cleaned_prefix(input.spec_bytes(), input.spec_bytes().len()),
{
    let mut output = String::new();
    let bytes = input.as_bytes();
    let ghost b = bytes@;
    let mut i: usize = 0;
    let mut in_string = false;
    let mut escape = false;
    while i < bytes.len()
        invariant
            b == bytes@,
            b == input.spec_bytes(),
            i <= b.len(),
            (in_string, escape) == scan_state(b, i as nat),
            output@ == cleaned_prefix(b, i as nat),
        decreases b.len() - i,
    {
        if escape {
            escape = false;
        } else if bytes[i] == 92u8 {
            escape = true;
        } else if bytes[i] == 34u8 {
            in_string = !in_string;
        }
        assert((in_string, escape) == scan_state(b, (i + 1) as nat));
        if !in_string && bytes[i] == 44u8 {
            let mut j = i + 1;
            while j < bytes.len() && (bytes[j] == 32u8 || bytes[j] == 9u8 || bytes[j] == 10u8 || bytes[j] == 13u8)
                invariant
                    b == bytes@,
                    i < j <= b.len(),
                    closes_after(b, i + 1) == closes_after(b, j as int),
                decreases b.len() - j,
            {
                j += 1;
            }
            if j < bytes.len() && (bytes[j] == 93u8 || bytes[j] == 125u8) {
                assert(is_trailing_comma(b, i as int));
                i += 1;
                continue;
            }
            assert(!closes_after(b, j as int));
        }
        assert(!is_trailing_comma(b, i as int));
        push_char(&mut output, bytes[i] as char);
        i += 1;
    }
    output
}

/// The characters read from the bytes, one per byte.
pub open spec fn bytes_as_chars(b: Seq<u8>) -> Seq<char> {
    b.map_values(|c: u8| c as char)
}

proof fn lemma_clean_prefix_unchanged(b: Seq<u8>, n: nat)
    requires
        n <= b.len(),
        forall|i: int| 0 <= i < b.len() ==> !#[trigger] is_trailing_comma(b, i),
    ensures
        cleaned_prefix(b, n) == bytes_as_chars(b.take(n as int)),
    decreases n,
{
    if n > 0 {
        lemma_clean_prefix_unchanged(b, (n - 1) as nat);
        assert(!is_trailing_comma(b, n - 1));
        assert(bytes_as_chars(b.take(n as int)) =~= bytes_as_chars(b.take(n - 1)).push(b[n - 1] as char));
    } else {
        assert(bytes_as_chars(b.take(0)) =~= Seq::<char>::empty());
    }
}

proof fn lemma_clean_prefix_len(b: Seq<u8>, n: nat)
    requires
        n <= b.len(),
    ensures
        cleaned_prefix(b, n).len() <= n,
    decreases n,
{
    if n > 0 {
        lemma_clean_prefix_len(b, (n - 1) as nat);
    }
}

/// Cleaning never lengthens a text, and a text without trailing commas (such
/// as any valid JSON) comes out unchanged, byte for character.
pub proof fn law_clean_json_keeps_clean_text(b: Seq<u8>)
    ensures
        cleaned_prefix(b, b.len()).len() <= b.len(),
        (forall|i: int| 0 <= i < b.len() ==> !#[trigger] is_trailing_comma(b, i))
            ==> cleaned_prefix(b, b.len()) == bytes_as_chars(b),
{
    lemma_clean_prefix_len(b, b.len());
    if forall|i: int| 0 <= i < b.len() ==> !#[trigger] is_trailing_comma(b, i) {
        lemma_clean_prefix_unchanged(b, b.len());
        assert(b.take(b.len() as int) =~= b);
    }
}

/// An ASCII text without trailing commas (such as any valid ASCII JSON) comes
/// out of cleaning exactly as it went in.
pub proof fn law_clean_json_keeps_ascii_text(s: &str)
    requires
        vstd::string::is_ascii(s),
        forall|i: int| 0 <= i < s.spec_bytes().len() ==> !#[trigger] is_trailing_comma(s.spec_bytes(), i),
    ensures
        cleaned_prefix(s.spec_bytes(), s.spec_bytes().len()) == s@,
{
    let b = s.spec_bytes();
    vstd::string::is_ascii_spec_bytes(s);
    law_clean_json_keeps_clean_text(b);
    assert forall|i: int| 0 <= i < s@.len() implies #[trigger] bytes_as_chars(b)[i] == s@[i] by {
        let c = s@[i];
        assert('\0' <= c <= '\u{7f}');
        assert(((c as u8) as char) == c);
    }
    assert(bytes_as_chars(b) =~= s@);
}

} // verus!
