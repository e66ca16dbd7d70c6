//! Small shared helpers: node catalogue types for the control surface,
//! identifier allocation, name formatting, and the bridges to randomness
//! and the clock.

use vstd::prelude::*;
use vstd::string::{StrSliceExecFns, StringExecFns};
use vstd::utf8::{encode_utf8, valid_utf8};
use base64::Engine;

verus! {

/// The node catalogue the control surface speaks of.
#[derive(Clone, Copy, PartialEq, Eq, Structural, Debug)]
pub enum NodeType {
    Drone(DroneType),
    Client(ClientType),
    Server(ServerType),
}

/// The client flavours the control surface can spawn.
#[derive(Clone, Copy, PartialEq, Eq, Structural, Debug)]
pub enum ClientType {
    Web,
    Chat,
}

/// The server flavours the control surface can spawn.
#[derive(Clone, Copy, PartialEq, Eq, Structural, Debug)]
pub enum ServerType {
    Text,
    Media,
    Communication,
}

/// The drone implementations the control surface can name.
#[derive(Clone, Copy, PartialEq, Eq, Structural, Debug)]
pub enum DroneType {
    Rust,
    BagelBomber,
    BobryWLocie,
    DRONE,
    LedronJames,
    Lockheedrustin,
    RustDoIt,
    RustRoveri,
    Rustbusters,
    RustyDrones,
    Skylink,
}

/// An undirected link between two nodes, as the control surface lists
/// them.
#[derive(Clone, Copy, PartialEq, Eq, Structural, Debug)]
pub struct Edge(pub u64, pub u64);

/// The smallest positive node id not yet in use, if any is left.
pub fn smallest_unused_id(used: &Vec<u8>) -> (r: Option<u8>)
    ensures
        match r {
            Some(id) => id >= 1 && !used@.contains(id) && forall|x: u8|
                1 <= x < id ==> used@.contains(x),
            None => forall|x: u8| x >= 1 ==> used@.contains(x),
        },
{
    let mut id: u8 = 1;
    loop
        invariant_except_break
            id >= 1,
            forall|x: u8| 1 <= x < id ==> used@.contains(x),
        ensures
            (id >= 1 && !used@.contains(id) && forall|x: u8| 1 <= x < id ==> used@.contains(x))
                || forall|x: u8| x >= 1 ==> used@.contains(x),
        decreases 255 - id,
    {
        let mut found = false;
        let n = used.len();
        let mut i: usize = 0;
        while i < n
            invariant
                i <= n,
                n == used@.len(),
                found <==> exists|t: int| 0 <= t < i && used@[t] == id,
            decreases n - i,
        {
            if used[i] == id {
                found = true;
            }
            i += 1;
        }
        proof {
            if found {
                let t = choose|t: int| 0 <= t < i && used@[t] == id;
                assert(used@.contains(id));
            }
            if used@.contains(id) {
                let t = choose|t: int| 0 <= t < used@.len() && used@[t] == id;
                assert(exists|t2: int| 0 <= t2 < i && used@[t2] == id);
            }
        }
        if !found {
            return Some(id);
        }
        if id == 255 {
            proof {
                assert forall|x: u8| x >= 1 implies used@.contains(x) by {
                    if x < 255 {
                        assert(used@.contains(x));
                    }
                }
            }
            return None;
        }
        id += 1;
    }
}

/// A lower-case ASCII letter, raised.
pub open spec fn upper_byte(b: u8) -> u8 {
    if 97 <= b <= 122 {
        (b - 32) as u8
    } else {
        b
    }
}

/// An upper-case ASCII letter, lowered.
pub open spec fn lower_byte(b: u8) -> u8 {
    if 65 <= b <= 90 {
        (b + 32) as u8
    } else {
        b
    }
}

/// One byte of a drone package name folded into the display name: an
/// underscore opens a word boundary; any other byte starts a word
/// raised or continues it lowered, with one space between words.
pub open spec fn fmt_step(out: Seq<u8>, at_start: bool, b: u8) -> (Seq<u8>, bool) {
    if b == 95 {
        (out, true)
    } else {
        let sep: Seq<u8> = if at_start && out.len() > 0 {
            seq![32u8]
        } else {
            Seq::empty()
        };
        let t = if at_start {
            upper_byte(b)
        } else {
            lower_byte(b)
        };
        (out + sep + seq![t], false)
    }
}

/// The display-name fold over the first `i` bytes.
pub open spec fn fmt_fold(bytes: Seq<u8>, i: int) -> (Seq<u8>, bool)
    decreases i,
{
    if i <= 0 {
        (Seq::empty(), true)
    } else {
        let prev = fmt_fold(bytes, i - 1);
        fmt_step(prev.0, prev.1, bytes[i - 1])
    }
}

/// The display name a drone package name's tail folds into.
pub open spec fn formatted_drone_bytes(bytes: Seq<u8>) -> Seq<u8> {
    fmt_fold(bytes, bytes.len() as int).0
}

/// The bytes spell `wg_drone_` and name a drone package.
pub open spec fn is_drone_dep(bytes: Seq<u8>) -> bool {
    bytes.len() >= 9 && bytes.subrange(0, 9) =~= seq![
        119u8,
        103u8,
        95u8,
        100u8,
        114u8,
        111u8,
        110u8,
        101u8,
        95u8,
    ]
}

/// Turns a drone package name into its display name: the `wg_drone_`
/// prefix goes, each underscore-separated word is capitalized, and the
/// words are joined with spaces.  Any other name passes through
/// unchanged, as does one whose folded bytes are no UTF-8 (which no
/// package name's are).
pub fn format_drone_name(dep_name: &str) -> (r: String)
    ensures
        ({
            let bs = encode_utf8(dep_name@);
            if is_drone_dep(bs) && valid_utf8(formatted_drone_bytes(bs.skip(9))) {
                encode_utf8(r@) == formatted_drone_bytes(bs.skip(9))
            } else {
                r@ == dep_name@
            }
        }),
{
    let bytes = dep_name.as_bytes_vec();
    let n = bytes.len();
    let prefix_ok = n >= 9 && bytes[0] == 119 && bytes[1] == 103 && bytes[2] == 95 && bytes[3]
        == 100 && bytes[4] == 114 && bytes[5] == 111 && bytes[6] == 110 && bytes[7] == 101
        && bytes[8] == 95;
    proof {
        assert(prefix_ok == is_drone_dep(bytes@));
    }
    if !prefix_ok {
        return dep_name.to_owned();
    }
    let ghost tail = bytes@.skip(9);
    let mut out: Vec<u8> = Vec::new();
    let mut at_start = true;
    let mut i: usize = 9;
    while i < n
        invariant
            9 <= i <= n,
            n == bytes@.len(),
            tail == bytes@.skip(9),
            (out@, at_start) == fmt_fold(tail, i - 9),
        decreases n - i,
    {
        let b = bytes[i];
        proof {
            assert(tail[i - 9] == bytes@[i as int]);
        }
        if b == 95 {
            at_start = true;
        } else {
            if at_start && out.len() > 0 {
                out.push(32);
            }
            let t = if at_start {
                if 97 <= b && b <= 122 {
                    b - 32
                } else {
                    b
                }
            } else {
                if 65 <= b && b <= 90 {
                    b + 32
                } else {
                    b
                }
            };
            out.push(t);
            at_start = false;
        }
        proof {
            assert(fmt_fold(tail, i - 9 + 1) == fmt_step(
                fmt_fold(tail, i - 9).0,
                fmt_fold(tail, i - 9).1,
                tail[i - 9],
            ));
            assert(out@ =~= fmt_fold(tail, i - 9 + 1).0);
        }
        i += 1;
    }
    proof {
        assert(out@ == formatted_drone_bytes(tail));
    }
    match crate::codec::bytes_to_string(out) {
        Some(s) => s,
        None => dep_name.to_owned(),
    }
}

/// The decimal digit `d` as a character.
pub open spec fn digit_char(d: int) -> char {
    if d == 0 {
        '0'
    } else if d == 1 {
        '1'
    } else if d == 2 {
        '2'
    } else if d == 3 {
        '3'
    } else if d == 4 {
        '4'
    } else if d == 5 {
        '5'
    } else if d == 6 {
        '6'
    } else if d == 7 {
        '7'
    } else if d == 8 {
        '8'
    } else {
        '9'
    }
}

/// The decimal spelling of `n`, most significant digit first.
pub open spec fn dec_str(n: nat) -> Seq<char>
    decreases n,
{
    if n < 10 {
        seq![digit_char(n as int)]
    } else {
        dec_str(n / 10).push(digit_char((n % 10) as int))
    }
}

/// One decimal digit as a string.
fn digit_string(d: u64) -> (r: String)
    requires
        d < 10,
    ensures
        r@ =~= seq![digit_char(d as int)],
{
    let s = if d == 0 {
        proof {
            reveal_strlit("0");
        }
        "0"
    } else if d == 1 {
        proof {
            reveal_strlit("1");
        }
        "1"
    } else if d == 2 {
        proof {
            reveal_strlit("2");
        }
        "2"
    } else if d == 3 {
        proof {
            reveal_strlit("3");
        }
        "3"
    } else if d == 4 {
        proof {
            reveal_strlit("4");
        }
        "4"
    } else if d == 5 {
        proof {
            reveal_strlit("5");
        }
        "5"
    } else if d == 6 {
        proof {
            reveal_strlit("6");
        }
        "6"
    } else if d == 7 {
        proof {
            reveal_strlit("7");
        }
        "7"
    } else if d == 8 {
        proof {
            reveal_strlit("8");
        }
        "8"
    } else {
        proof {
            reveal_strlit("9");
        }
        "9"
    };
    s.to_owned()
}

/// The decimal spelling of a 64-bit number.
pub fn u64_to_string(n: u64) -> (r: String)
    ensures
        r@ == dec_str(n as nat),
    decreases n,
{
    if n < 10 {
        digit_string(n)
    } else {
        let mut s = u64_to_string(n / 10);
        let d = digit_string(n % 10);
        s.append(d.as_str());
        proof {
            assert(s@ =~= dec_str((n / 10) as nat).push(digit_char((n % 10) as int)));
        }
        s
    }
}

/// The decimal spelling of a node id.
pub fn u8_to_string(n: u8) -> (r: String)
    ensures
        r@ == dec_str(n as nat),
{
    u64_to_string(n as u64)
}

/// An element-for-element copy of a vector of plain values.
pub fn copy_vec<T: Copy>(v: &Vec<T>) -> (r: Vec<T>)
    ensures
        r@ == v@,
{
    let mut r: Vec<T> = Vec::new();
    let n = v.len();
    let mut i: usize = 0;
    while i < n
        invariant
            i <= n,
            n == v@.len(),
            r@ == v@.take(i as int),
        decreases n - i,
    {
        r.push(v[i]);
        proof {
            assert(r@ =~= v@.take(i as int + 1));
        }
        i += 1;
    }
    proof {
        assert(v@.take(n as int) =~= v@);
    }
    r
}

/// What base64 makes of a byte string, in the standard alphabet with
/// padding.
pub uninterp spec fn base64_of(bytes: Seq<u8>) -> Seq<char>;

/// Relies on `base64::engine::general_purpose::STANDARD.encode`: the
/// standard-alphabet, padded base64 text of the bytes — four characters
/// for every started group of three bytes, a function of the bytes
/// alone.  The length bound keeps the encoded size within `usize`,
/// where the call would give up.
#[verifier::external_body]
fn base64_standard(bytes: &Vec<u8>) -> (r: String)
    requires
        bytes@.len() <= (usize::MAX - 2) / 4,
    ensures
        r@ == base64_of(bytes@),
        r@.len() == 4 * ((bytes@.len() + 2) / 3),
{
    base64::engine::general_purpose::STANDARD.encode(bytes)
}

/// The characters of `s` end with those of `p`.
pub open spec fn ends_with(s: Seq<char>, p: Seq<char>) -> bool {
    s.len() >= p.len() && s.subrange(s.len() - p.len(), s.len() as int) =~= p
}

/// Whether the name's characters end with the suffix's.
fn ends_with_exec(s: &str, p: &str) -> (r: bool)
    ensures
        r == ends_with(s@, p@),
{
    let n = s.unicode_len();
    let m = p.unicode_len();
    if n < m {
        return false;
    }
    let mut i: usize = 0;
    while i < m
        invariant
            i <= m,
            m <= n,
            n == s@.len(),
            m == p@.len(),
            forall|t: int| 0 <= t < i ==> s@[n - m + t] == p@[t],
        decreases m - i,
    {
        if s.get_char(n - m + i) != p.get_char(i) {
            proof {
                assert(s@[n - m + i] != p@[i as int]);
                if ends_with(s@, p@) {
                    assert(s@.subrange(n - m, n as int)[i as int] == p@[i as int]);
                }
            }
            return false;
        }
        i += 1;
    }
    proof {
        assert(s@.subrange(n - m, n as int) =~= p@);
    }
    true
}

/// The media type a file name's ending suggests: PNG by default, JPEG
/// for the usual JPEG endings.
pub open spec fn mime_of(name: Seq<char>) -> Seq<char> {
    if ends_with(name, ".jpg"@) || ends_with(name, ".jpeg"@) {
        "image/jpeg"@
    } else {
        "image/png"@
    }
}

/// The data URL that embeds an image: its media type guessed from the
/// file name's ending, its bytes in standard base64.
pub fn image_data_url(file_path: &str, image_data: &Vec<u8>) -> (r: String)
    requires
        image_data@.len() <= (usize::MAX - 2) / 4,
    ensures
        r@ == "data:"@ + mime_of(file_path@) + ";base64,"@ + base64_of(image_data@),
{
    let mut out = String::new();
    out.append("data:");
    let jpg = ends_with_exec(file_path, ".jpg");
    let jpeg = ends_with_exec(file_path, ".jpeg");
    if jpg || jpeg {
        out.append("image/jpeg");
    } else {
        out.append("image/png");
    }
    out.append(";base64,");
    let b64 = base64_standard(image_data);
    out.append(b64.as_str());
    proof {
        assert(out@ =~= "data:"@ + mime_of(file_path@) + ";base64,"@ + base64_of(image_data@));
    }
    out
}

/// Relies on `rand::random::<u64>`: a fresh random value; nothing can be
/// promised about which.
#[verifier::external_body]
pub(crate) fn random_u64() -> u64 {
    rand::random::<u64>()
}

/// Relies on `chrono::Utc::now().to_rfc3339()`: the current instant as
/// RFC 3339 text; nothing can be promised about which instant.
#[verifier::external_body]
pub(crate) fn now_rfc3339() -> String {
    chrono::Utc::now().to_rfc3339()
}

} // verus!
