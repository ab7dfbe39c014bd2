//! Parsers for the contents of `/etc/hosts` and `/etc/hostname`.
use vstd::prelude::*;
use vstd::utf8::{valid_utf8, decode_utf8, encode_utf8};
use vstd::slice::slice_subrange;
use vstd::string::StringSliceAdditionalSpecFns;
use regex::Regex;
use crate::errno::Errno;

verus! {

/// Whether `c` is whitespace, as `char::is_whitespace` defines it: the characters with the
/// Unicode `White_Space` property.
pub open spec fn is_ws(c: char) -> bool {
    ||| 0x9 <= c as u32 <= 0xd
    ||| c as u32 == 0x20
    ||| c as u32 == 0x85
    ||| c as u32 == 0xa0
    ||| c as u32 == 0x1680
    ||| 0x2000 <= c as u32 <= 0x200a
    ||| c as u32 == 0x2028
    ||| c as u32 == 0x2029
    ||| c as u32 == 0x202f
    ||| c as u32 == 0x205f
    ||| c as u32 == 0x3000
}

/// Whether `Regex::new` accepts the pattern.
pub uninterp spec fn regex_compiles(pattern: Seq<char>) -> bool;

/// Whether the regex of `pattern` matches somewhere in `haystack` (`Regex::is_match`).
pub uninterp spec fn regex_matches(pattern: Seq<char>, haystack: Seq<char>) -> bool;

/// Whether `c` is whitespace.
fn is_whitespace(c: char) -> (r: bool)
    ensures
        r == is_ws(c),
{
    let u = c as u32;
    (0x9 <= u && u <= 0xd) || u == 0x20 || u == 0x85 || u == 0xa0 || u == 0x1680 || (0x2000 <= u && u <= 0x200a)
        || u == 0x2028 || u == 0x2029 || u == 0x202f || u == 0x205f || u == 0x3000
}

/// `str::from_utf8`: the text that the bytes encode, when they are valid UTF-8.
#[verifier::external_body]
pub(crate) fn utf8_str(b: &[u8]) -> (r: Option<&str>)
    ensures
        r is Some <==> valid_utf8(b@),
        r matches Some(s) ==> s@ == decode_utf8(b@),
{
    core::str::from_utf8(b).ok()
}

/// The characters of the text.
fn str_chars(s: &str) -> (r: Vec<char>)
    ensures
        r@ == s@,
{
    broadcast use vstd::string::axiom_spec_iter;
    let mut out: Vec<char> = Vec::new();
    for c in it: s.chars()
        invariant
            it.seq() == s@,
            out@ == it.seq().take(it.index() as int),
    {
        proof {
            assert(it.seq().take(it.index() as int + 1) =~= it.seq().take(it.index() as int).push(c));
        }
        out.push(c);
    }
    assert(out@ =~= s@);
    out
}

/// `String::from_iter` over the characters: the text made of them.
#[verifier::external_body]
fn chars_to_string(cs: &[char]) -> (r: String)
    ensures
        r@ == cs@,
{
    String::from_iter(cs.iter())
}

/// `Regex::new` on `pattern`, then `Regex::is_match` on `haystack`: whether the compiled
/// pattern matches, or nothing when the pattern does not compile. For the hostname pattern of
/// RFC 1123, which the regex syntax documentation reads as one or more dot-separated labels of
/// ASCII letters, digits and inner hyphens with `^` and `$` at the ends of the text, the match
/// is that character-level predicate, `rfc1123_hostname`.
#[verifier::external_body]
fn regex_is_match(pattern: &str, haystack: &str) -> (r: Option<bool>)
    ensures
        r == (if regex_compiles(pattern@) { Some(regex_matches(pattern@, haystack@)) } else { None::<bool> }),
        pattern@ == r"^(([a-zA-Z0-9]|[a-zA-Z0-9][a-zA-Z0-9\-]*[a-zA-Z0-9])\.)*([A-Za-z0-9]|[A-Za-z0-9][A-Za-z0-9\-]*[A-Za-z0-9])$"@ ==> r == Some(rfc1123_hostname(haystack@)),
{
    match Regex::new(pattern) {
        Ok(re) => Some(re.is_match(haystack)),
        Err(_) => None,
    }
}

/// The hostname pattern, compliant with RFC 1123.
pub fn hostname_pattern() -> (r: &'static str)
    ensures
        r@ == hostname_pattern_spec(),
{
    "^(([a-zA-Z0-9]|[a-zA-Z0-9][a-zA-Z0-9\\-]*[a-zA-Z0-9])\\.)*([A-Za-z0-9]|[A-Za-z0-9][A-Za-z0-9\\-]*[A-Za-z0-9])$"
}

/// The hostname pattern, as text.
pub closed spec fn hostname_pattern_spec() -> Seq<char> {
    "^(([a-zA-Z0-9]|[a-zA-Z0-9][a-zA-Z0-9\\-]*[a-zA-Z0-9])\\.)*([A-Za-z0-9]|[A-Za-z0-9][A-Za-z0-9\\-]*[A-Za-z0-9])$"@
}

/// Whether the text is a valid hostname.
pub open spec fn is_hostname(s: Seq<char>) -> bool {
    rfc1123_hostname(s)
}

/// An ASCII letter, of either case, or digit.
pub open spec fn is_alnum_ascii(c: char) -> bool {
    ||| ('a' <= c && c <= 'z')
    ||| ('A' <= c && c <= 'Z')
    ||| ('0' <= c && c <= '9')
}

/// A hostname of RFC 1123: dot-separated labels, none empty, each of ASCII letters, digits and
/// hyphens and starting and ending with a letter or digit. Character by character: the text is
/// not empty, starts and ends with a letter or digit, holds only letters, digits, hyphens and
/// dots, and has a letter or digit on both sides of each dot.
pub open spec fn rfc1123_hostname(s: Seq<char>) -> bool {
    &&& s.len() > 0
    &&& is_alnum_ascii(s[0])
    &&& is_alnum_ascii(s.last())
    &&& forall|i: int| 0 <= i < s.len() ==> is_alnum_ascii(#[trigger] s[i]) || s[i] == '-' || s[i] == '.'
    &&& forall|i: int| 0 <= i < s.len() && #[trigger] s[i] == '.' ==> 0 < i < s.len() - 1
        && is_alnum_ascii(s[i - 1]) && is_alnum_ascii(s[i + 1])
}

/// Splitting bytes at each newline, from the left: the lines finished so far and the current one.
pub open spec fn split_acc(b: Seq<u8>) -> (Seq<Seq<u8>>, Seq<u8>)
    decreases b.len(),
{
    if b.len() == 0 {
        (seq![], seq![])
    } else {
        let (done, cur) = split_acc(b.drop_last());
        if b.last() == 10u8 { (done.push(cur), seq![]) } else { (done, cur.push(b.last())) }
    }
}

/// The lines of the bytes, split at each newline; the last line may be empty.
pub open spec fn split_lines(b: Seq<u8>) -> Seq<Seq<u8>> {
    split_acc(b).0.push(split_acc(b).1)
}

/// The text without its leading whitespace.
pub open spec fn trim_start(cs: Seq<char>) -> Seq<char>
    decreases cs.len(),
{
    if cs.len() > 0 && is_ws(cs[0]) { trim_start(cs.drop_first()) } else { cs }
}

/// Splitting text at whitespace, from the left: the words finished so far and the current one.
pub open spec fn words_acc(cs: Seq<char>) -> (Seq<Seq<char>>, Seq<char>)
    decreases cs.len(),
{
    if cs.len() == 0 {
        (seq![], seq![])
    } else {
        let (done, cur) = words_acc(cs.drop_last());
        if is_ws(cs.last()) {
            if cur.len() > 0 { (done.push(cur), seq![]) } else { (done, seq![]) }
        } else {
            (done, cur.push(cs.last()))
        }
    }
}

/// The words of the text: its longest runs of characters that are not whitespace.
pub open spec fn words(cs: Seq<char>) -> Seq<Seq<char>> {
    if words_acc(cs).1.len() > 0 { words_acc(cs).0.push(words_acc(cs).1) } else { words_acc(cs).0 }
}

/// A line that is skipped: empty, or a comment, once its leading whitespace is gone.
pub open spec fn skipped(t: Seq<char>) -> bool {
    t.len() == 0 || t[0] == '#'
}

/// The first word of the text, or nothing when it has no word.
pub open spec fn first_word(t: Seq<char>) -> Seq<char> {
    if words(t).len() > 0 { words(t)[0] } else { seq![] }
}

/// The entry of a hosts line whose first word is an IP address when `ip_ok`: that address
/// followed by one or more valid hostnames.
pub open spec fn host_entry_spec(line: Seq<char>, ip_ok: bool) -> Option<(Seq<char>, Seq<Seq<char>>)> {
    let ws = words(line);
    if ws.len() == 0 || !ip_ok || ws.len() == 1 {
        None
    } else if forall|i: int| 1 <= i < ws.len() ==> is_hostname(#[trigger] ws[i]) {
        Some((ws[0], ws.drop_first()))
    } else {
        None
    }
}

/// The entry of a hosts line whose first word is an IP address when `ip_ok`, and whose
/// following words are valid hostnames as `names_ok` tells in order: that address followed by
/// one or more hostnames, all valid.
pub open spec fn host_entry_checked_spec(line: Seq<char>, ip_ok: bool, names_ok: Seq<bool>) -> Option<(Seq<char>, Seq<Seq<char>>)> {
    let ws = words(line);
    if ws.len() == 0 || !ip_ok || ws.len() == 1 {
        None
    } else if names_ok.len() == ws.len() - 1 && forall|i: int| 0 <= i < names_ok.len() ==> #[trigger] names_ok[i] {
        Some((ws[0], ws.drop_first()))
    } else {
        None
    }
}

/// The text of a line, without its leading whitespace.
pub open spec fn line_text(l: Seq<u8>) -> Seq<char> {
    trim_start(decode_utf8(l))
}

/// The texts of the lines that are neither empty nor comments.
pub open spec fn kept_lines(lines: Seq<Seq<u8>>) -> Seq<Seq<char>>
    decreases lines.len(),
{
    if lines.len() == 0 {
        seq![]
    } else {
        let t = line_text(lines.last());
        if skipped(t) { kept_lines(lines.drop_last()) } else { kept_lines(lines.drop_last()).push(t) }
    }
}

/// The entries of the kept hosts lines, whose first words are IP addresses as `ip_ok` tells,
/// or nothing when a line is malformed.
pub open spec fn hosts_spec(kept: Seq<Seq<char>>, ip_ok: Seq<bool>) -> Option<Seq<(Seq<char>, Seq<Seq<char>>)>>
    decreases kept.len(),
{
    if kept.len() == 0 {
        Some(seq![])
    } else {
        match hosts_spec(kept.drop_last(), ip_ok.drop_last()) {
            None => None,
            Some(es) => match host_entry_spec(kept.last(), ip_ok.last()) {
                None => None,
                Some(e) => Some(es.push(e)),
            },
        }
    }
}

/// The length in bytes of the text, as `str::len` gives it.
pub open spec fn byte_len(t: Seq<char>) -> usize {
    encode_utf8(t).len() as usize
}

/// The hostnames of the kept hostname lines, or nothing when one is malformed: not a
/// hostname, or longer than 64 bytes.
pub open spec fn hostnames_spec(kept: Seq<Seq<char>>) -> Option<Seq<Seq<char>>>
    decreases kept.len(),
{
    if kept.len() == 0 {
        Some(seq![])
    } else {
        match hostnames_spec(kept.drop_last()) {
            None => None,
            Some(hs) => {
                let t = kept.last();
                if !is_hostname(t) || byte_len(t) > 64 { None } else { Some(hs.push(t)) }
            },
        }
    }
}

/// One entry of `/etc/hosts`: an IP address and its hostnames.
#[derive(Debug, Default, Clone)]
pub struct HostEntry {
    ip: String,
    hostname: Vec<String>,
}

/// The entries of `/etc/hosts`.
#[derive(Debug, Default, Clone)]
pub struct Hosts {
    pub entries: Vec<HostEntry>,
}

impl HostEntry {
    /// The address and the hostnames.
    pub closed spec fn spec_value(&self) -> (Seq<char>, Seq<Seq<char>>) {
        (self.ip@, self.hostname@.map_values(|h: String| h@))
    }

    pub fn ip(&self) -> (r: &String)
        ensures
            r@ == self.spec_value().0,
    {
        &self.ip
    }

    pub fn hostname(&self) -> (r: &Vec<String>)
        ensures
            r@.map_values(|h: String| h@) == self.spec_value().1,
    {
        &self.hostname
    }
}

/// Every line of the bytes (a longest run without a newline) is valid UTF-8.
pub open spec fn lines_valid_utf8(b: Seq<u8>) -> bool {
    forall|s: int, e: int| 0 <= s <= e <= b.len() && (s == 0 || b[s - 1] == 10u8) && (e == b.len() || b[e] == 10u8)
        && (forall|k: int| s <= k < e ==> #[trigger] b[k] != 10u8) ==> valid_utf8(#[trigger] b.subrange(s, e))
}

/// Whether every line of `bytes`, split at newlines, is valid UTF-8.
pub fn lines_are_utf8(bytes: &[u8]) -> (r: bool)
    ensures
        r == lines_valid_utf8(bytes@),
{
    let ghost b = bytes@;
    let n = bytes.len();
    let mut ls: usize = 0;
    let mut i: usize = 0;
    while i < n
        invariant
            b == bytes@,
            n == b.len(),
            ls <= i <= n,
            ls == 0 || b[ls - 1] == 10u8,
            forall|k: int| ls <= k < i ==> #[trigger] b[k] != 10u8,
            forall|s: int, e: int| 0 <= s <= e < ls && (s == 0 || b[s - 1] == 10u8) && (e == b.len() || b[e] == 10u8)
                && (forall|k: int| s <= k < e ==> #[trigger] b[k] != 10u8) ==> valid_utf8(#[trigger] b.subrange(s, e)),
        decreases n - i,
    {
        if bytes[i] == 10u8 {
            let ok = utf8_str(slice_subrange(bytes, ls, i)).is_some();
            if !ok {
                assert(!valid_utf8(b.subrange(ls as int, i as int)));
                return false;
            }
            proof {
                assert forall|s: int, e: int| 0 <= s <= e < i + 1 && (s == 0 || b[s - 1] == 10u8) && (e == b.len() || b[e] == 10u8)
                    && (forall|k: int| s <= k < e ==> #[trigger] b[k] != 10u8) implies valid_utf8(#[trigger] b.subrange(s, e)) by {
                    if e >= ls {
                        if e < i {
                            assert(b[e] != 10u8);
                        }
                        if s < ls {
                            assert(b[ls - 1] != 10u8);
                        }
                        if s > ls {
                            assert(b[s - 1] != 10u8);
                        }
                    }
                }
            }
            ls = i + 1;
        }
        i = i + 1;
    }
    let ok = utf8_str(slice_subrange(bytes, ls, n)).is_some();
    proof {
        if ok {
            assert forall|s: int, e: int| 0 <= s <= e <= b.len() && (s == 0 || b[s - 1] == 10u8) && (e == b.len() || b[e] == 10u8)
                && (forall|k: int| s <= k < e ==> #[trigger] b[k] != 10u8) implies valid_utf8(#[trigger] b.subrange(s, e)) by {
                if e >= ls {
                    if e < n {
                        assert(b[e] != 10u8);
                    }
                    if s < ls {
                        assert(b[ls - 1] != 10u8);
                    }
                    if s > ls {
                        assert(b[s - 1] != 10u8);
                    }
                }
            }
        } else {
            assert(!valid_utf8(b.subrange(ls as int, n as int)));
        }
    }
    ok
}

/// The position in `cs` after its leading whitespace.
fn trim_start_pos(cs: &[char]) -> (r: usize)
    ensures
        r <= cs@.len(),
        cs@.subrange(r as int, cs@.len() as int) == trim_start(cs@),
{
    let mut k: usize = 0;
    proof {
        assert(cs@.subrange(0, cs@.len() as int) =~= cs@);
    }
    while k < cs.len() && is_whitespace(cs[k])
        invariant
            k <= cs@.len(),
            trim_start(cs@) == trim_start(cs@.subrange(k as int, cs@.len() as int)),
        decreases cs@.len() - k,
    {
        proof {
            let sub = cs@.subrange(k as int, cs@.len() as int);
            assert(sub.drop_first() =~= cs@.subrange(k as int + 1, cs@.len() as int));
            assert(sub[0] == cs@[k as int]);
        }
        k = k + 1;
    }
    proof {
        let sub = cs@.subrange(k as int, cs@.len() as int);
        if k < cs@.len() {
            assert(sub[0] == cs@[k as int]);
        } else {
            assert(sub.len() == 0);
        }
    }
    k
}

/// The words of `cs`.
fn split_words(cs: &[char]) -> (r: Vec<Vec<char>>)
    ensures
        r@.map_values(|w: Vec<char>| w@) == words(cs@),
{
    let mut done: Vec<Vec<char>> = Vec::new();
    let mut cur: Vec<char> = Vec::new();
    let mut i: usize = 0;
    while i < cs.len()
        invariant
            i <= cs@.len(),
            (done@.map_values(|w: Vec<char>| w@), cur@) == words_acc(cs@.subrange(0, i as int)),
        decreases cs@.len() - i,
    {
        proof {
            assert(cs@.subrange(0, i as int + 1).drop_last() =~= cs@.subrange(0, i as int));
            assert(cs@.subrange(0, i as int + 1).last() == cs@[i as int]);
        }
        let c = cs[i];
        if is_whitespace(c) {
            if cur.len() > 0 {
                let w = cur;
                done.push(w);
                cur = Vec::new();
                proof {
                    assert(done@.map_values(|w: Vec<char>| w@) =~= words_acc(cs@.subrange(0, i as int)).0.push(words_acc(cs@.subrange(0, i as int)).1));
                }
            }
        } else {
            cur.push(c);
        }
        proof {
            assert(cur@ =~= words_acc(cs@.subrange(0, i as int + 1)).1);
            assert(done@.map_values(|w: Vec<char>| w@) =~= words_acc(cs@.subrange(0, i as int + 1)).0);
        }
        i = i + 1;
    }
    proof {
        assert(cs@.subrange(0, cs@.len() as int) =~= cs@);
    }
    if cur.len() > 0 {
        done.push(cur);
        proof {
            assert(done@.map_values(|w: Vec<char>| w@) =~= words_acc(cs@).0.push(words_acc(cs@).1));
        }
    }
    done
}

/// Whether a text is a valid hostname, given what matching it against the hostname pattern
/// gave (`None` when the pattern does not compile): only a match makes it one.
pub fn hostname_check_result(matched: Option<bool>) -> (r: bool)
    ensures
        r == (matched == Some(true)),
{
    match matched {
        Some(m) => m,
        None => false,
    }
}

/// Whether the text is a valid hostname.
fn check_hostname(s: &str) -> (r: bool)
    ensures
        r == is_hostname(s@),
{
    hostname_check_result(regex_is_match(hostname_pattern(), s))
}

/// The text of the line `bytes[ls..i]` (valid UTF-8), without its leading whitespace, if it is
/// neither empty nor a comment.
fn kept_text(bytes: &[u8], ls: usize, i: usize) -> (r: Option<Vec<char>>)
    requires
        ls <= i <= bytes@.len(),
        valid_utf8(bytes@.subrange(ls as int, i as int)),
    ensures
        skipped(line_text(bytes@.subrange(ls as int, i as int))) ==> r is None,
        !skipped(line_text(bytes@.subrange(ls as int, i as int))) ==> (r matches Some(v) && v@ == line_text(bytes@.subrange(ls as int, i as int))),
{
    let line = slice_subrange(bytes, ls, i);
    let text = match utf8_str(line) {
        Some(t) => t,
        None => {
            assert(false);
            return None;
        },
    };
    let chars = str_chars(text);
    let k = trim_start_pos(chars.as_slice());
    let ghost t = line_text(bytes@.subrange(ls as int, i as int));
    proof {
        assert(chars@.subrange(k as int, chars@.len() as int) == t);
    }
    if k < chars.len() && chars[k] != '#' {
        let mut kv: Vec<char> = Vec::new();
        let mut j: usize = k;
        while j < chars.len()
            invariant
                k <= j <= chars@.len(),
                kv@ == chars@.subrange(k as int, j as int),
            decreases chars@.len() - j,
        {
            kv.push(chars[j]);
            j = j + 1;
            proof {
                assert(kv@ =~= chars@.subrange(k as int, j as int));
            }
        }
        proof {
            assert(t[0] == chars@[k as int]);
        }
        Some(kv)
    } else {
        None
    }
}

/// The texts of the lines of `bytes` that are neither empty nor comments, without their
/// leading whitespace.
#[verifier::spinoff_prover]
#[verifier::rlimit(30)]
fn line_texts(bytes: &[u8]) -> (r: Vec<Vec<char>>)
    requires
        lines_valid_utf8(bytes@),
    ensures
        r@.map_values(|w: Vec<char>| w@) == kept_lines(split_lines(bytes@)),
{
    let ghost b = bytes@;
    let n = bytes.len();
    let mut out: Vec<Vec<char>> = Vec::new();
    let mut ls: usize = 0;
    let mut i: usize = 0;
    while i < n
        invariant
            b == bytes@,
            n == b.len(),
            lines_valid_utf8(b),
            ls <= i <= n,
            split_acc(b.subrange(0, i as int)).1 == b.subrange(ls as int, i as int),
            out@.map_values(|w: Vec<char>| w@) == kept_lines(split_acc(b.subrange(0, i as int)).0),
            ls == 0 || b[ls - 1] == 10u8,
            forall|k: int| ls <= k < i ==> #[trigger] b[k] != 10u8,
        decreases n - i,
    {
        let pre = Ghost(b.subrange(0, i as int));
        let pre1 = Ghost(b.subrange(0, i as int + 1));
        proof {
            assert(pre1@.drop_last() =~= pre@);
            assert(pre1@.last() == b[i as int]);
        }
        if bytes[i] == 10u8 {
            proof {
                assert(valid_utf8(b.subrange(ls as int, i as int)));
            }
            let kt = kept_text(bytes, ls, i);
            let ghost old_out = out@.map_values(|w: Vec<char>| w@);
            let ghost d = split_acc(pre@).0;
            let ghost c = split_acc(pre@).1;
            proof {
                assert(split_acc(pre1@) == (d.push(c), Seq::<u8>::empty()));
                assert(d.push(c).drop_last() =~= d);
                assert(d.push(c).last() == c);
            }
            match kt {
                Some(kv) => {
                    out.push(kv);
                    proof {
                        assert(out@.map_values(|w: Vec<char>| w@) =~= old_out.push(line_text(c)));
                    }
                },
                None => {},
            }
            ls = i + 1;
            proof {
                assert(b.subrange(ls as int, i as int + 1) =~= Seq::<u8>::empty());
            }
        } else {
            proof {
                assert(b.subrange(ls as int, i as int).push(b[i as int]) =~= b.subrange(ls as int, i as int + 1));
            }
        }
        i = i + 1;
    }
    proof {
        assert(b.subrange(0, n as int) =~= b);
        assert(valid_utf8(b.subrange(ls as int, n as int)));
    }
    let kt = kept_text(bytes, ls, n);
    let ghost old_out = out@.map_values(|w: Vec<char>| w@);
    let ghost d = split_acc(b).0;
    let ghost c = split_acc(b).1;
    proof {
        assert(split_lines(b) == d.push(c));
        assert(d.push(c).drop_last() =~= d);
        assert(d.push(c).last() == c);
    }
    match kt {
        Some(kv) => {
            out.push(kv);
            proof {
                assert(out@.map_values(|w: Vec<char>| w@) =~= old_out.push(line_text(c)));
            }
        },
        None => {},
    }
    out
}

/// The entry of a line whose first word is an IP address when `ip_valid`.
fn entry_of(cs: &[char], ip_valid: bool) -> (r: Result<HostEntry, Errno>)
    ensures
        r is Err <==> host_entry_spec(cs@, ip_valid) is None,
        r is Err ==> r == Err::<HostEntry, Errno>(Errno::EINVAL),
        r matches Ok(e) ==> Some(e.spec_value()) == host_entry_spec(cs@, ip_valid),
{
    let ws = split_words(cs);
    let ghost wv = ws@.map_values(|w: Vec<char>| w@);
    if ws.len() == 0 || !ip_valid || ws.len() == 1 {
        return Err(Errno::EINVAL);
    }
    let ip = chars_to_string(ws[0].as_slice());
    let mut hostname: Vec<String> = Vec::new();
    let mut i: usize = 1;
    while i < ws.len()
        invariant
            wv == ws@.map_values(|w: Vec<char>| w@),
            wv == words(cs@),
            1 <= i <= ws@.len(),
            hostname@.map_values(|h: String| h@) == wv.subrange(1, i as int),
            forall|k: int| 1 <= k < i ==> is_hostname(#[trigger] wv[k]),
        decreases ws@.len() - i,
    {
        let h = chars_to_string(ws[i].as_slice());
        proof {
            assert(h@ == wv[i as int]);
        }
        if !check_hostname(h.as_str()) {
            return Err(Errno::EINVAL);
        }
        let ghost prev = hostname@.map_values(|h: String| h@);
        hostname.push(h);
        proof {
            assert(hostname@.map_values(|h: String| h@) =~= prev.push(wv[i as int]));
            assert(wv.subrange(1, i as int).push(wv[i as int]) =~= wv.subrange(1, i as int + 1));
        }
        i = i + 1;
    }
    let e = HostEntry { ip, hostname };
    proof {
        assert(wv.subrange(1, wv.len() as int) =~= wv.drop_first());
        assert(ws@[0]@ == wv[0]);
    }
    Ok(e)
}

impl HostEntry {
    /// The entry of the line `line`, whose first word is an IP address when `ip_valid` and
    /// whose following words are valid hostnames as `names_valid` tells in order: an IP
    /// address followed by one or more hostnames, all valid.
    pub fn from_words(line: &str, ip_valid: bool, names_valid: &[bool]) -> (r: Result<Self, Errno>)
        ensures
            r is Err <==> host_entry_checked_spec(line@, ip_valid, names_valid@) is None,
            r is Err ==> r == Err::<Self, Errno>(Errno::EINVAL),
            r matches Ok(e) ==> Some(e.spec_value()) == host_entry_checked_spec(line@, ip_valid, names_valid@),
    {
        let chars = str_chars(line);
        let ws = split_words(chars.as_slice());
        let ghost wv = ws@.map_values(|w: Vec<char>| w@);
        if ws.len() == 0 || !ip_valid || ws.len() == 1 {
            return Err(Errno::EINVAL);
        }
        if names_valid.len() != ws.len() - 1 {
            return Err(Errno::EINVAL);
        }
        let ip = chars_to_string(ws[0].as_slice());
        let mut hostname: Vec<String> = Vec::new();
        let mut i: usize = 1;
        while i < ws.len()
            invariant
                wv == ws@.map_values(|w: Vec<char>| w@),
                wv == words(line@),
                names_valid@.len() == ws@.len() - 1,
                1 <= i <= ws@.len(),
                hostname@.map_values(|h: String| h@) == wv.subrange(1, i as int),
                forall|k: int| 0 <= k < i - 1 ==> #[trigger] names_valid@[k],
            decreases ws@.len() - i,
        {
            if !names_valid[i - 1] {
                return Err(Errno::EINVAL);
            }
            let h = chars_to_string(ws[i].as_slice());
            let ghost prev = hostname@.map_values(|h: String| h@);
            hostname.push(h);
            proof {
                assert(hostname@.map_values(|h: String| h@) =~= prev.push(wv[i as int]));
                assert(wv.subrange(1, i as int).push(wv[i as int]) =~= wv.subrange(1, i as int + 1));
            }
            i = i + 1;
        }
        let e = HostEntry { ip, hostname };
        proof {
            assert(wv.subrange(1, wv.len() as int) =~= wv.drop_first());
            assert(ws@[0]@ == wv[0]);
        }
        Ok(e)
    }

    /// The entry of the line `line`, whose first word is an IP address when `ip_valid`: an
    /// IP address followed by one or more valid hostnames.
    pub fn from_str(line: &str, ip_valid: bool) -> (r: Result<Self, Errno>)
        ensures
            r is Err <==> host_entry_spec(line@, ip_valid) is None,
            r is Err ==> r == Err::<Self, Errno>(Errno::EINVAL),
            r matches Ok(e) ==> Some(e.spec_value()) == host_entry_spec(line@, ip_valid),
    {
        let chars = str_chars(line);
        entry_of(chars.as_slice(), ip_valid)
    }

    /// The first word of the line, which must be an IP address.
    pub fn first_word(line: &str) -> (r: String)
        ensures
            r@ == first_word(line@),
    {
        let chars = str_chars(line);
        let ws = split_words(chars.as_slice());
        if ws.len() > 0 {
            chars_to_string(ws[0].as_slice())
        } else {
            String::new()
        }
    }
}

/// The first words of the lines of `/etc/hosts` that are neither empty nor comments, in
/// order: the addresses to check.
pub fn hosts_first_words(bytes: &[u8]) -> (r: Vec<String>)
    requires
        lines_valid_utf8(bytes@),
    ensures
        r@.len() == kept_lines(split_lines(bytes@)).len(),
        forall|k: int| 0 <= k < r@.len() ==> (#[trigger] r@[k])@ == first_word(kept_lines(split_lines(bytes@))[k]),
{
    let texts = line_texts(bytes);
    let ghost tv = texts@.map_values(|w: Vec<char>| w@);
    let mut out: Vec<String> = Vec::new();
    let mut i: usize = 0;
    while i < texts.len()
        invariant
            tv == texts@.map_values(|w: Vec<char>| w@),
            i <= texts@.len(),
            out@.len() == i,
            forall|k: int| 0 <= k < i ==> (#[trigger] out@[k])@ == first_word(tv[k]),
        decreases texts@.len() - i,
    {
        let ws = split_words(texts[i].as_slice());
        let w = if ws.len() > 0 { chars_to_string(ws[0].as_slice()) } else { String::new() };
        out.push(w);
        i = i + 1;
    }
    out
}

/// Parse the contents of `/etc/hosts`: every line that is neither empty nor a comment is an
/// entry, an IP address followed by hostnames. `ip_valid` tells, for each such line in order,
/// whether its first word is an IP address.
pub fn parse_hosts_buffer(bytes: &[u8], ip_valid: &[bool]) -> (r: Result<Hosts, Errno>)
    requires
        lines_valid_utf8(bytes@),
        ip_valid@.len() == kept_lines(split_lines(bytes@)).len(),
    ensures
        r is Err <==> hosts_spec(kept_lines(split_lines(bytes@)), ip_valid@) is None,
        r is Err ==> r == Err::<Hosts, Errno>(Errno::EINVAL),
        r matches Ok(h) ==> Some(h.entries@.map_values(|e: HostEntry| e.spec_value())) == hosts_spec(kept_lines(split_lines(bytes@)), ip_valid@),
{
    let texts = line_texts(bytes);
    let ghost tv = texts@.map_values(|w: Vec<char>| w@);
    let mut entries: Vec<HostEntry> = Vec::new();
    let mut i: usize = 0;
    while i < texts.len()
        invariant
            tv == texts@.map_values(|w: Vec<char>| w@),
            tv == kept_lines(split_lines(bytes@)),
            tv.len() == ip_valid@.len(),
            i <= texts@.len(),
            hosts_spec(tv.subrange(0, i as int), ip_valid@.subrange(0, i as int))
                == Some(entries@.map_values(|e: HostEntry| e.spec_value())),
        decreases texts@.len() - i,
    {
        proof {
            assert(tv.subrange(0, i as int + 1).drop_last() =~= tv.subrange(0, i as int));
            assert(ip_valid@.subrange(0, i as int + 1).drop_last() =~= ip_valid@.subrange(0, i as int));
            assert(tv.subrange(0, i as int + 1).last() == tv[i as int]);
            assert(ip_valid@.subrange(0, i as int + 1).last() == ip_valid@[i as int]);
            assert(texts@[i as int]@ == tv[i as int]);
        }
        let e = match entry_of(texts[i].as_slice(), ip_valid[i]) {
            Ok(e) => e,
            Err(err) => {
                proof {
                    lemma_hosts_none_stays(tv, ip_valid@, i as int + 1);
                }
                return Err(err);
            },
        };
        let ghost prev = entries@.map_values(|e: HostEntry| e.spec_value());
        entries.push(e);
        proof {
            assert(entries@.map_values(|e: HostEntry| e.spec_value()) =~= prev.push(e.spec_value()));
        }
        i = i + 1;
    }
    proof {
        assert(tv.subrange(0, tv.len() as int) =~= tv);
        assert(ip_valid@.subrange(0, tv.len() as int) =~= ip_valid@);
    }
    Ok(Hosts { entries })
}

/// Once a prefix of the hosts lines is malformed, the whole is.
proof fn lemma_hosts_none_stays(kept: Seq<Seq<char>>, ip: Seq<bool>, i: int)
    requires
        0 <= i <= kept.len(),
        kept.len() == ip.len(),
        hosts_spec(kept.subrange(0, i), ip.subrange(0, i)) is None,
    ensures
        hosts_spec(kept, ip) is None,
    decreases kept.len() - i,
{
    if i < kept.len() {
        assert(kept.subrange(0, i + 1).drop_last() =~= kept.subrange(0, i));
        assert(ip.subrange(0, i + 1).drop_last() =~= ip.subrange(0, i));
        lemma_hosts_none_stays(kept, ip, i + 1);
    } else {
        assert(kept.subrange(0, i) =~= kept);
        assert(ip.subrange(0, i) =~= ip);
    }
}

/// Once a prefix of the hostname lines is malformed, the whole is.
proof fn lemma_hostnames_none_stays(kept: Seq<Seq<char>>, i: int)
    requires
        0 <= i <= kept.len(),
        hostnames_spec(kept.subrange(0, i)) is None,
    ensures
        hostnames_spec(kept) is None,
    decreases kept.len() - i,
{
    if i < kept.len() {
        assert(kept.subrange(0, i + 1).drop_last() =~= kept.subrange(0, i));
        lemma_hostnames_none_stays(kept, i + 1);
    } else {
        assert(kept.subrange(0, i) =~= kept);
    }
}

/// Parse the contents of `/etc/hostname`: exactly one line that is neither empty nor a
/// comment, a valid hostname of at most 64 bytes.
pub fn parse_hostname_buffer(bytes: &[u8]) -> (r: Result<String, Errno>)
    requires
        lines_valid_utf8(bytes@),
    ensures
        r is Ok <==> (hostnames_spec(kept_lines(split_lines(bytes@))) matches Some(hs) && hs.len() == 1),
        r is Err ==> r == Err::<String, Errno>(Errno::EINVAL),
        r matches Ok(h) ==> h@ == hostnames_spec(kept_lines(split_lines(bytes@)))->0[0],
{
    let texts = line_texts(bytes);
    let ghost tv = texts@.map_values(|w: Vec<char>| w@);
    let mut names: Vec<String> = Vec::new();
    let mut i: usize = 0;
    while i < texts.len()
        invariant
            tv == texts@.map_values(|w: Vec<char>| w@),
            tv == kept_lines(split_lines(bytes@)),
            i <= texts@.len(),
            hostnames_spec(tv.subrange(0, i as int)) == Some(names@.map_values(|h: String| h@)),
        decreases texts@.len() - i,
    {
        proof {
            assert(tv.subrange(0, i as int + 1).drop_last() =~= tv.subrange(0, i as int));
            assert(tv.subrange(0, i as int + 1).last() == tv[i as int]);
        }
        let h = chars_to_string(texts[i].as_slice());
        proof {
            assert(texts@[i as int]@ == tv[i as int]);
            assert(h@ == tv[i as int]);
        }
        let ok = check_hostname(h.as_str());
        let hs = h.as_str();
        let hl = hs.len();
        proof {
            assert(hs@ == h@);
            assert(hs.spec_bytes() == encode_utf8(hs@));
        }
        let long = hl > 64;
        if !ok || long {
            proof {
                lemma_hostnames_none_stays(tv, i as int + 1);
            }
            return Err(Errno::EINVAL);
        }
        let ghost prev = names@.map_values(|h: String| h@);
        proof {
            assert(is_hostname(tv[i as int]));
            assert(byte_len(tv[i as int]) <= 64);
            assert(hostnames_spec(tv.subrange(0, i as int + 1)) == Some(prev.push(tv[i as int])));
        }
        names.push(h);
        proof {
            assert(names@.map_values(|h: String| h@) =~= prev.push(tv[i as int]));
        }
        i = i + 1;
    }
    proof {
        assert(tv.subrange(0, tv.len() as int) =~= tv);
    }
    if names.len() != 1 {
        return Err(Errno::EINVAL);
    }
    let name = names.pop();
    match name {
        Some(n) => Ok(n),
        None => {
            assert(false);
            Err(Errno::EINVAL)
        },
    }
}

/// `/etc/hostname` with one name is accepted exactly when the name is an RFC 1123 hostname of
/// at most 64 bytes, letters of either case allowed: `parse_hostname_buffer` then gives that
/// name, and refuses the file otherwise.
pub proof fn law_hostname_file_takes_rfc1123_names(name: Seq<char>)
    ensures
        (rfc1123_hostname(name) && byte_len(name) <= 64) ==> hostnames_spec(seq![name]) == Some(seq![name]),
        !(rfc1123_hostname(name) && byte_len(name) <= 64) ==> hostnames_spec(seq![name]) is None,
{
    let k = seq![name];
    assert(k.drop_last() =~= Seq::<Seq<char>>::empty());
    assert(k.last() == name);
    assert(hostnames_spec(Seq::<Seq<char>>::empty()) == Some(Seq::<Seq<char>>::empty()));
    assert(hostnames_spec(k.drop_last()) == Some(Seq::<Seq<char>>::empty()));
    assert(Seq::<Seq<char>>::empty().push(name) =~= k);
}

/// A hosts line with a valid address and further words is an entry exactly when every further
/// word is an RFC 1123 hostname, letters of either case allowed.
pub proof fn law_host_entry_takes_rfc1123_names(line: Seq<char>)
    requires
        words(line).len() >= 2,
    ensures
        host_entry_spec(line, true) is Some <==> forall|i: int| 1 <= i < words(line).len() ==> rfc1123_hostname(#[trigger] words(line)[i]),
{
}

} // verus!
