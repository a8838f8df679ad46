//! The custom URI scheme through which the interface loads local files
//! (thumbnails, previews): which requests are refused, with which status,
//! and which file a request reads.

use crate::config::{root_index_for, AppConfig, ConfigStore, RootView};
use crate::external::{hex_value, percent_decode_lossy, percent_decoded, percent_decoded_lossy, string_from_chars};
use crate::paths::{absolute_in, is_absolute_path, path_starts_with, within_in, PathStyle};
use crate::server::{lemma_plain_decodes_to_itself, no_percent, Reply};
use crate::text::{chars_of, trim_leading, trim_start_char};
use vstd::prelude::*;
use vstd::utf8::{
    decode_utf8, encode_scalar, encode_utf8, encode_utf8_decode_utf8, encode_utf8_valid_utf8,
    is_ascii_chars, is_ascii_chars_encode_utf8, valid_utf8,
};

verus! {

/// The name of the URI scheme.
pub const SCHEME: &'static str = "haystack-asset";

/// The path a request names: its URL path without leading `/`,
/// percent-decoded.
pub open spec fn asset_path(raw: Seq<char>) -> Seq<char> {
    percent_decoded_lossy(trim_leading(raw, '/'))
}

/// The first answer to an asset request, before the file system is
/// consulted: the decoded path must be absolute (else 400) and lie within
/// a configured root (else 403).
pub open spec fn asset_target_spec(style: PathStyle, config: Seq<RootView>, raw: Seq<char>) -> Result<
    Seq<char>,
    (u16, Seq<char>),
> {
    asset_target_for(style, config, asset_path(raw))
}

/// The first answer to an asset request for a decoded path.
pub open spec fn asset_target_for(style: PathStyle, config: Seq<RootView>, target: Seq<char>) -> Result<
    Seq<char>,
    (u16, Seq<char>),
> {
    if !absolute_in(style, target) {
        Err((400u16, "absolute path required"@))
    } else if root_index_for(style, config, target) is None {
        Err((403u16, "outside configured roots"@))
    } else {
        Ok(target)
    }
}

/// A decoded asset path is judged in the store's own path style: it is
/// served exactly when it is absolute and lies within a configured root;
/// it is refused with 400 exactly when it is not absolute, and with 403
/// exactly when it is absolute but outside every root.
pub proof fn lemma_asset_target_rule(style: PathStyle, config: Seq<RootView>, target: Seq<char>)
    ensures
        absolute_in(style, target) && root_index_for(style, config, target) is Some
            ==> asset_target_for(style, config, target) == Ok::<Seq<char>, (u16, Seq<char>)>(target),
        asset_target_for(style, config, target) is Ok ==> absolute_in(style, target)
            && root_index_for(style, config, target) is Some,
        !absolute_in(style, target) ==> asset_target_for(style, config, target) == Err::<
            Seq<char>,
            (u16, Seq<char>),
        >((400u16, "absolute path required"@)),
        absolute_in(style, target) && root_index_for(style, config, target) is None
            ==> asset_target_for(style, config, target) == Err::<Seq<char>, (u16, Seq<char>)>(
            (403u16, "outside configured roots"@),
        ),
{
}

/// A character that `encodeURIComponent` leaves as it is: ASCII letters
/// and digits and `-_.!~*'()`.
pub open spec fn uri_unreserved(c: char) -> bool {
    ('A' <= c && c <= 'Z') || ('a' <= c && c <= 'z') || ('0' <= c && c <= '9') || c == '-' || c
        == '_' || c == '.' || c == '!' || c == '~' || c == '*' || c == '\'' || c == '(' || c == ')'
}

/// The upper-case hexadecimal digit for a value below 16.
pub open spec fn hex_digit_char(d: u8) -> char {
    if d == 0 {
        '0'
    } else if d == 1 {
        '1'
    } else if d == 2 {
        '2'
    } else if d == 3 {
        '3'
    } else if d == 4 {
        '4'
    } else if d == 5 {
        '5'
    } else if d == 6 {
        '6'
    } else if d == 7 {
        '7'
    } else if d == 8 {
        '8'
    } else if d == 9 {
        '9'
    } else if d == 10 {
        'A'
    } else if d == 11 {
        'B'
    } else if d == 12 {
        'C'
    } else if d == 13 {
        'D'
    } else if d == 14 {
        'E'
    } else {
        'F'
    }
}

/// Each byte written as `%` and two upper-case hexadecimal digits.
pub open spec fn percent_escapes(b: Seq<u8>) -> Seq<char>
    decreases b.len(),
{
    if b.len() == 0 {
        seq![]
    } else {
        seq!['%', hex_digit_char(b[0] / 16), hex_digit_char(b[0] % 16)] + percent_escapes(b.skip(1))
    }
}

/// What `encodeURIComponent` makes of `a`, which is how the interface
/// writes a file path into an asset URL: unreserved characters stay, every
/// other character becomes the `%` escapes of its UTF-8 bytes.
pub open spec fn uri_component(a: Seq<char>) -> Seq<char>
    decreases a.len(),
{
    if a.len() == 0 {
        seq![]
    } else {
        (if uri_unreserved(a[0]) {
            seq![a[0]]
        } else {
            percent_escapes(encode_scalar(a[0] as u32))
        }) + uri_component(a.drop_first())
    }
}

/// The bytes of ASCII text.
pub open spec fn ascii_bytes(s: Seq<char>) -> Seq<u8> {
    s.map_values(|c: char| c as u8)
}

proof fn lemma_hex_digit(d: u8)
    requires
        d < 16,
    ensures
        hex_value(hex_digit_char(d) as u8) == Some(d),
        '\0' <= hex_digit_char(d) <= '\u{7f}',
        hex_digit_char(d) != '/',
{
}

proof fn lemma_escapes_ascii(b: Seq<u8>)
    ensures
        is_ascii_chars(percent_escapes(b)),
        percent_escapes(b).len() > 0 ==> percent_escapes(b)[0] == '%',
    decreases b.len(),
{
    if b.len() > 0 {
        lemma_escapes_ascii(b.skip(1));
        lemma_hex_digit(b[0] / 16);
        lemma_hex_digit(b[0] % 16);
        let h: Seq<char> = seq!['%', hex_digit_char(b[0] / 16), hex_digit_char(b[0] % 16)];
        let t = percent_escapes(b.skip(1));
        assert forall|i: int| 0 <= i < (h + t).len() implies '\0' <= #[trigger] (h + t)[i] <= '\u{7f}' by {
            if i >= 3 {
                assert((h + t)[i] == t[i - 3]);
            }
        }
    }
}

/// The text `encodeURIComponent` gives is ASCII and never begins with `/`.
proof fn lemma_uri_ascii(a: Seq<char>)
    ensures
        is_ascii_chars(uri_component(a)),
        uri_component(a).len() > 0 ==> uri_component(a)[0] != '/',
    decreases a.len(),
{
    if a.len() > 0 {
        lemma_uri_ascii(a.drop_first());
        let c = a[0];
        let p: Seq<char> = if uri_unreserved(c) {
            seq![c]
        } else {
            percent_escapes(encode_scalar(c as u32))
        };
        let t = uri_component(a.drop_first());
        if !uri_unreserved(c) {
            lemma_escapes_ascii(encode_scalar(c as u32));
            assert(encode_scalar(c as u32).len() > 0);
        }
        assert(uri_component(a) == p + t);
        assert forall|i: int| 0 <= i < (p + t).len() implies '\0' <= #[trigger] (p + t)[i] <= '\u{7f}' by {
            if i >= p.len() {
                assert((p + t)[i] == t[i - p.len()]);
            } else {
                assert((p + t)[i] == p[i]);
            }
        }
    }
}

proof fn lemma_escapes_decode(b: Seq<u8>, r: Seq<u8>)
    ensures
        percent_decoded(ascii_bytes(percent_escapes(b)) + r) =~= b + percent_decoded(r),
    decreases b.len(),
{
    if b.len() == 0 {
        assert(ascii_bytes(percent_escapes(b)) + r =~= r);
    } else {
        let b0 = b[0];
        let hi = b0 / 16;
        let lo = b0 % 16;
        lemma_hex_digit(hi);
        lemma_hex_digit(lo);
        lemma_escapes_decode(b.skip(1), r);
        let rest = ascii_bytes(percent_escapes(b.skip(1))) + r;
        let t = ascii_bytes(percent_escapes(b)) + r;
        assert(('%' as u8) == 37u8);
        assert(t =~= seq![37u8, hex_digit_char(hi) as u8, hex_digit_char(lo) as u8] + rest);
        assert(t.skip(3) =~= rest);
        assert(hi * 16 + lo == b0);
        assert(b + percent_decoded(r) =~= seq![b0] + (b.skip(1) + percent_decoded(r)));
    }
}

/// Percent-decoding the bytes of `encodeURIComponent(a)` gives back the
/// UTF-8 bytes of `a`.
proof fn lemma_uri_decode(a: Seq<char>)
    ensures
        percent_decoded(ascii_bytes(uri_component(a))) =~= encode_utf8(a),
    decreases a.len(),
{
    if a.len() > 0 {
        let c = a[0];
        lemma_uri_decode(a.drop_first());
        let r = ascii_bytes(uri_component(a.drop_first()));
        assert(encode_utf8(a) == encode_scalar(c as u32) + encode_utf8(a.drop_first()));
        if uri_unreserved(c) {
            let v = c as u32;
            assert(v <= 0x7F);
            assert(v <= 0x7F ==> (v & 0x7F) as u8 == v as u8) by (bit_vector);
            assert(encode_scalar(v) =~= seq![c as u8]);
            assert(c != '%');
            assert((c as u8) != 37u8);
            let t = ascii_bytes(uri_component(a));
            assert(t =~= seq![c as u8] + r);
            assert(t.skip(1) =~= r);
        } else {
            lemma_escapes_decode(encode_scalar(c as u32), r);
            assert(ascii_bytes(uri_component(a)) =~= ascii_bytes(
                percent_escapes(encode_scalar(c as u32)),
            ) + r);
        }
    }
}

/// The path that an asset URL written as `/` followed by
/// `encodeURIComponent(a)` names is `a` itself.
proof fn lemma_asset_path_round_trip(a: Seq<char>)
    ensures
        valid_utf8(percent_decoded(encode_utf8(trim_leading(seq!['/'] + uri_component(a), '/')))),
        decode_utf8(percent_decoded(encode_utf8(trim_leading(seq!['/'] + uri_component(a), '/'))))
            == a,
{
    let u = uri_component(a);
    lemma_uri_ascii(a);
    lemma_uri_decode(a);
    assert((seq!['/'] + u).skip(1) =~= u);
    assert(trim_leading(seq!['/'] + u, '/') == trim_leading(u, '/'));
    assert(trim_leading(u, '/') == u);
    is_ascii_chars_encode_utf8(u);
    assert(encode_utf8(u) =~= ascii_bytes(u));
    encode_utf8_valid_utf8(a);
    encode_utf8_decode_utf8(a);
}

/// The file path an asset request names: its URL path without leading
/// `/`, percent-decoded.
pub fn asset_decoded_path(raw_path: &str) -> (res: String)
    ensures
        res@ == asset_path(raw_path@),
        no_percent(trim_leading(raw_path@, '/')) ==> res@ == trim_leading(raw_path@, '/'),
        forall|a: Seq<char>| raw_path@ == seq!['/'] + #[trigger] uri_component(a) ==> res@ == a,
{
    let rc = chars_of(raw_path);
    let trimmed = trim_start_char(rc.as_slice(), '/');
    let ts = string_from_chars(trimmed.as_slice());
    let target = percent_decode_lossy(ts.as_str());
    proof {
        if no_percent(trim_leading(raw_path@, '/')) {
            lemma_plain_decodes_to_itself(ts@);
        }
        assert forall|a: Seq<char>| raw_path@ == seq!['/'] + #[trigger] uri_component(a) implies target@
            == a by {
            lemma_asset_path_round_trip(a);
        }
    }
    target
}

/// Reads the file path an asset request names and checks it against the
/// configured roots.
pub fn asset_target(store: &ConfigStore, raw_path: &str) -> (res: Result<String, Reply>)
    ensures
        match asset_target_spec(store.style(), store.config(), raw_path@) {
            Ok(t) => res matches Ok(r) && r@ == t,
            Err((status, msg)) => res matches Err(r) && r.status == status && r.message@ == msg,
        },
        no_percent(trim_leading(raw_path@, '/')) ==> match asset_target_for(
            store.style(),
            store.config(),
            trim_leading(raw_path@, '/'),
        ) {
            Ok(t) => res matches Ok(r) && r@ == t,
            Err((status, msg)) => res matches Err(r) && r.status == status && r.message@ == msg,
        },
        forall|a: Seq<char>|
            raw_path@ == seq!['/'] + #[trigger] uri_component(a) ==> match asset_target_for(
                store.style(),
                store.config(),
                a,
            ) {
                Ok(t) => res matches Ok(r) && r@ == t,
                Err((status, msg)) => res matches Err(r) && r.status == status && r.message@ == msg,
            },
{
    let target = asset_decoded_path(raw_path);
    asset_target_checked(store, target)
}

/// Checks a decoded asset path against the configured roots: it must be
/// absolute (else 400) and lie within a configured root (else 403).
pub fn asset_target_checked(store: &ConfigStore, target: String) -> (res: Result<String, Reply>)
    ensures
        match asset_target_for(store.style(), store.config(), target@) {
            Ok(t) => res matches Ok(r) && r@ == t,
            Err((status, msg)) => res matches Err(r) && r.status == status && r.message@ == msg,
        },
{
    if !is_absolute_path(store.path_style(), target.as_str()) {
        return Err(Reply { status: 400, message: "absolute path required" });
    }
    if store.resolve_within_roots(target.as_str()).is_none() {
        return Err(Reply { status: 403, message: "outside configured roots" });
    }
    Ok(target)
}

/// The resolved directory of root `i`: what the file system resolved it
/// to, or its configured path when that failed.
pub open spec fn resolved_root(config: Seq<RootView>, resolved: Seq<Option<String>>, i: int) -> Seq<
    char,
> {
    match resolved[i] {
        Some(r) => r@,
        None => config[i].path,
    }
}

/// Whether a resolved path lies within some resolved root.
pub open spec fn within_resolved_roots(
    style: PathStyle,
    config: Seq<RootView>,
    resolved: Seq<Option<String>>,
    canonical: Seq<char>,
) -> bool {
    exists|i: int|
        0 <= i < config.len() && within_in(style, canonical, #[trigger] resolved_root(config, resolved, i))
}

/// Checks the file an asset request names once the file system has
/// resolved it and the roots: it must exist (else 404), lie within some
/// resolved root, so that no symbolic link leads out of the roots (else
/// 403), and not be a directory (else 403).
pub fn asset_resolved_check(
    style: PathStyle,
    config: &AppConfig,
    resolved_roots: &Vec<Option<String>>,
    canonical: &Option<String>,
    is_dir: bool,
) -> (res: Result<(), Reply>)
    requires
        resolved_roots@.len() == config@.len(),
    ensures
        match canonical {
            None => res matches Err(r) && r.status == 404 && r.message@ == "not found"@,
            Some(c) => if !within_resolved_roots(style, config@, resolved_roots@, c@) {
                res matches Err(r) && r.status == 403 && r.message@ == "symlink escape blocked"@
            } else if is_dir {
                res matches Err(r) && r.status == 403 && r.message@ == "directory listing disabled"@
            } else {
                res is Ok
            },
        },
{
    let c = match canonical {
        None => return Err(Reply { status: 404, message: "not found" }),
        Some(c) => c,
    };
    let mut i: usize = 0;
    let mut safe = false;
    while i < config.roots.len()
        invariant
            i <= config.roots.len(),
            resolved_roots@.len() == config@.len(),
            config@.len() == config.roots@.len(),
            safe == exists|k: int|
                0 <= k < i && within_in(style, c@, #[trigger] resolved_root(config@, resolved_roots@, k)),
        decreases config.roots.len() - i,
    {
        let root = match &resolved_roots[i] {
            Some(r) => r,
            None => &config.roots[i].path,
        };
        assert(root@ == resolved_root(config@, resolved_roots@, i as int));
        if path_starts_with(style, c.as_str(), root.as_str()) {
            safe = true;
        }
        i = i + 1;
    }
    if !safe {
        return Err(Reply { status: 403, message: "symlink escape blocked" });
    }
    if is_dir {
        return Err(Reply { status: 403, message: "directory listing disabled" });
    }
    Ok(())
}

} // verus!
