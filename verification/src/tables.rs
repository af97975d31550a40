//! The fuzzing dictionaries: buffer sizes, format strings, separators,
//! integer edge cases, request methods and printable characters.
use vstd::prelude::*;
use vstd::string::StringSliceAdditionalSpecFns;

verus! {

broadcast use vstd::string::group_string_axioms;

/// Typical buffer sizes.
pub open spec fn magic_number_values() -> Seq<u64> {
    seq![32, 64, 128, 256, 512, 1024, 2048, 4096, 8192, 32767, 65535]
}

pub fn magic_numbers() -> (r: [u64; 11])
    ensures
        r@ == magic_number_values(),
{
    [32, 64, 128, 256, 512, 1024, 2048, 4096, 8192, 32767, 65535]
}

/// Format strings and header value separators.
pub open spec fn magic_string_texts() -> Seq<&'static str> {
    seq!["%s%n%x", "%", ",", " ", "."]
}

pub fn magic_strings() -> (r: [&'static str; 5])
    ensures
        r@ == magic_string_texts(),
{
    ["%s%n%x", "%", ",", " ", "."]
}

/// Separators for composite payloads.
pub open spec fn separator_texts() -> Seq<&'static str> {
    seq![",", ";", "/", "", " ", "="]
}

pub fn separators() -> (r: [&'static str; 6])
    ensures
        r@ == separator_texts(),
{
    [",", ";", "/", "", " ", "="]
}

/// Integer edge cases.
pub open spec fn magic_payload_texts() -> Seq<&'static str> {
    seq![
        "0", "-1", "1", "-127", "-128", "-129", "127", "128", "129", "-254", "-255", "-256",
        "254", "255", "256", "-32766", "-32767", "-32768", "32766", "32767", "32768", "-65534",
        "-65535", "-65536", "65534", "65535", "65536", "-2147483646", "-2147483647",
        "-2147483648", "2147483646", "2147483647", "2147483648", "-4294967294", "-4294967295",
        "-4294967296", "4294967294", "4294967295", "4294967296", "-9223372036854775807",
        "-9223372036854775808", "-9223372036854775809", "9223372036854775807",
        "9223372036854775808", "9223372036854775809", "-18446744073709551614",
        "-18446744073709551615", "-18446744073709551616", "18446744073709551614",
        "18446744073709551615", "18446744073709551616",
    ]
}

pub fn magic_payloads() -> (r: [&'static str; 51])
    ensures
        r@ == magic_payload_texts(),
{
    [
        "0", "-1", "1", "-127", "-128", "-129", "127", "128", "129", "-254", "-255", "-256",
        "254", "255", "256", "-32766", "-32767", "-32768", "32766", "32767", "32768", "-65534",
        "-65535", "-65536", "65534", "65535", "65536", "-2147483646", "-2147483647",
        "-2147483648", "2147483646", "2147483647", "2147483648", "-4294967294", "-4294967295",
        "-4294967296", "4294967294", "4294967295", "4294967296", "-9223372036854775807",
        "-9223372036854775808", "-9223372036854775809", "9223372036854775807",
        "9223372036854775808", "9223372036854775809", "-18446744073709551614",
        "-18446744073709551615", "-18446744073709551616", "18446744073709551614",
        "18446744073709551615", "18446744073709551616",
    ]
}

/// The request methods of Nginx and OpenResty.
pub open spec fn nginx_method_texts() -> Seq<&'static str> {
    seq!["GET", "POST", "PUT", "HEAD", "OPTIONS", "TRACE", "CONNECT"]
}

pub fn nginx_methods() -> (r: [&'static str; 7])
    ensures
        r@ == nginx_method_texts(),
{
    ["GET", "POST", "PUT", "HEAD", "OPTIONS", "TRACE", "CONNECT"]
}

/// The printable characters of Python's `string.printable`.
pub open spec fn printable_text() -> &'static str {
    "0123456789abcdefghijklmnopqrstuvwxyzABCDEFGHIJKLMNOPQRSTUVWXYZ!\"#$%&'()*+,-./:;<=>?@[\\]^_`{|}~ \t\n\r\x0b\x0c"
}

pub fn printables() -> (r: &'static [u8])
    ensures
        r@ == printable_text().spec_bytes(),
        r@.len() == 100,
{
    proof {
        lemma_printables();
    }
    "0123456789abcdefghijklmnopqrstuvwxyzABCDEFGHIJKLMNOPQRSTUVWXYZ!\"#$%&'()*+,-./:;<=>?@[\\]^_`{|}~ \t\n\r\x0b\x0c".as_bytes()
}

/// The bytes of each text.
pub open spec fn text_bytes(texts: Seq<&str>) -> Seq<Seq<u8>> {
    texts.map_values(|t: &str| t.spec_bytes())
}

pub open spec fn is_magic_string(b: Seq<u8>) -> bool {
    text_bytes(magic_string_texts()).contains(b)
}

pub open spec fn is_separator(b: Seq<u8>) -> bool {
    text_bytes(separator_texts()).contains(b)
}

pub open spec fn is_magic_payload(b: Seq<u8>) -> bool {
    text_bytes(magic_payload_texts()).contains(b)
}

pub open spec fn is_printable(c: u8) -> bool {
    printable_text().spec_bytes().contains(c)
}

pub proof fn lemma_printables()
    ensures
        printable_text().spec_bytes().len() == 100,
{
    reveal_strlit(
        "0123456789abcdefghijklmnopqrstuvwxyzABCDEFGHIJKLMNOPQRSTUVWXYZ!\"#$%&'()*+,-./:;<=>?@[\\]^_`{|}~ \t\n\r\x0b\x0c",
    );
    assert(vstd::string::is_ascii(printable_text()));
}

/// Every format string holds between one and six bytes.
pub proof fn lemma_magic_string_len(b: Seq<u8>)
    requires
        is_magic_string(b),
    ensures
        1 <= b.len() <= 6,
{
    reveal_strlit("%s%n%x");
    reveal_strlit("%");
    reveal_strlit(",");
    reveal_strlit(" ");
    reveal_strlit(".");
    let i = choose|i: int| 0 <= i < 5 && text_bytes(magic_string_texts())[i] == b;
    assert(vstd::string::is_ascii(magic_string_texts()[i]));
}

/// The bytes of a text of `texts` are among the bytes of `texts`.
pub proof fn lemma_text_bytes_contains(texts: Seq<&str>, t: &str)
    requires
        texts.contains(t),
    ensures
        text_bytes(texts).contains(t.spec_bytes()),
{
    let i = choose|i: int| 0 <= i < texts.len() && texts[i] == t;
    assert(text_bytes(texts)[i] == t.spec_bytes());
}

} // verus!
