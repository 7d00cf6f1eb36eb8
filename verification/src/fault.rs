//! Fault-message extraction.
//!
//! A failing listing call surfaces a message string that may itself be
//! a structured fault document (an XML body). [`translate`] recovers
//! the human-readable text of the first `Message` element; any
//! malformed or unexpected document degrades gracefully to the raw
//! string, so the path is total.

use vstd::prelude::*;

use crate::types::MetaError;

verus! {

/// The marker that opens a fault document.
pub open spec fn xml_decl() -> Seq<char> {
    seq!['<', '?', 'x', 'm', 'l']
}

/// Whether the message looks like a structured fault document.
pub open spec fn is_fault_doc(s: Seq<char>) -> bool {
    s.len() >= 5 && s.subrange(0, 5) == xml_decl()
}

/// The opening of a `Message` start tag, up to its name.
pub open spec fn msg_open() -> Seq<char> {
    seq!['<', 'M', 'e', 's', 's', 'a', 'g', 'e']
}

/// A complete `Message` end tag.
pub open spec fn msg_close() -> Seq<char> {
    seq!['<', '/', 'M', 'e', 's', 's', 'a', 'g', 'e', '>']
}

/// XML whitespace.
pub open spec fn is_space_char(c: char) -> bool {
    c == ' ' || c == '\t' || c == '\r' || c == '\n'
}

/// The first position at or after `i` holding `c`, or `-1`.
pub open spec fn find_from(s: Seq<char>, i: int, c: char) -> int
    decreases s.len() - i when i >= 0
{
    if i < 0 || i >= s.len() {
        -1
    } else if s[i] == c {
        i
    } else {
        find_from(s, i + 1, c)
    }
}

proof fn lemma_find_from_bounds(s: Seq<char>, i: int, c: char)
    requires
        i >= 0,
    ensures
        ({
            let r = find_from(s, i, c);
            r == -1 || (i <= r < s.len() && s[r] == c)
        }),
    decreases s.len() - i,
{
    if 0 <= i && i < s.len() && s[i] != c {
        lemma_find_from_bounds(s, i + 1, c);
    }
}

/// Whether the text at `i` spells the name part of a `Message` start tag.
pub open spec fn tag_name_at(s: Seq<char>, i: int) -> bool {
    0 <= i && i + 8 <= s.len() && s.subrange(i, i + 8) == msg_open()
}

/// Whether a well-formed, non-empty `Message` start tag begins at `i`:
/// the name is followed either directly by `>` or by whitespace and
/// then attribute text up to `>`, and the tag is not self-closing.
pub open spec fn valid_msg_start(s: Seq<char>, i: int) -> bool {
    let j = find_from(s, i + 8, '>');
    &&& tag_name_at(s, i)
    &&& j >= 0
    &&& (j == i + 8 || is_space_char(s[i + 8]))
    &&& s[j - 1] != '/'
}

/// The position of the first well-formed `Message` start tag at or
/// after `i`, or `-1`.
pub open spec fn find_msg_tag(s: Seq<char>, i: int) -> int
    decreases s.len() - i when i >= 0
{
    if i < 0 || i + 8 > s.len() {
        -1
    } else if valid_msg_start(s, i) {
        i
    } else {
        find_msg_tag(s, i + 1)
    }
}

/// The replacement for a named XML entity, if it is one of the five
/// predefined names. This scanner deliberately decodes only those
/// five: a numeric character reference (`&#n;` or `&#xn;`) counts as
/// unknown, so a document holding one degrades to the raw message.
pub open spec fn entity_of(name: Seq<char>) -> Option<char> {
    if name == seq!['l', 't'] {
        Some('<')
    } else if name == seq!['g', 't'] {
        Some('>')
    } else if name == seq!['a', 'm', 'p'] {
        Some('&')
    } else if name == seq!['a', 'p', 'o', 's'] {
        Some('\'')
    } else if name == seq!['q', 'u', 'o', 't'] {
        Some('"')
    } else {
        None
    }
}

/// Prepends a character to a successfully decoded tail.
pub open spec fn cons_decoded(c: char, rest: Option<Seq<char>>) -> Option<Seq<char>> {
    match rest {
        Some(r) => Some(seq![c] + r),
        None => None,
    }
}

/// The element text from position `i` on, with the five predefined
/// entities decoded; `None` where an entity is unterminated or
/// unknown.
pub open spec fn unescape_from(s: Seq<char>, i: int) -> Option<Seq<char>>
    decreases s.len() - i when i >= 0
{
    if i < 0 || i >= s.len() {
        Some(Seq::empty())
    } else if s[i] != '&' {
        cons_decoded(s[i], unescape_from(s, i + 1))
    } else {
        let sc = find_from(s, i + 1, ';');
        if sc <= i || sc >= s.len() {
            None
        } else {
            match entity_of(s.subrange(i + 1, sc)) {
                Some(c) => cons_decoded(c, unescape_from(s, sc + 1)),
                None => None,
            }
        }
    }
}

/// What [`translate`] returns: for a fault document holding a
/// well-formed `Message` element with decodable text, that text; in
/// every other case the message unchanged.
pub open spec fn translate_spec(s: Seq<char>) -> Seq<char> {
    if !is_fault_doc(s) {
        s
    } else {
        let i = find_msg_tag(s, 0);
        if i < 0 {
            s
        } else {
            let j = find_from(s, i + 8, '>');
            let k = find_from(s, j + 1, '<');
            if k < 0 {
                s
            } else if k + 10 > s.len() || s.subrange(k, k + 10) != msg_close() {
                s
            } else {
                match unescape_from(s.subrange(j + 1, k), 0) {
                    Some(t) => t,
                    None => s,
                }
            }
        }
    }
}

/// Whether `pat` occurs in `s` starting at position `i`.
fn has_at(s: &str, i: usize, pat: &str) -> (b: bool)
    ensures
        b == (i + pat@.len() <= s@.len() && s@.subrange(
            i as int,
            i as int + pat@.len() as int,
        ) == pat@),
{
    let n: usize = s.unicode_len();
    let m: usize = pat.unicode_len();
    if m > n || i > n - m {
        proof {
            if i + pat@.len() <= s@.len() {
                assert(false);
            }
        }
        return false;
    }
    let mut j: usize = 0;
    while j < m
        invariant
            n == s@.len(),
            m == pat@.len(),
            i + m <= n,
            j <= m,
            forall|t: int| 0 <= t < j ==> s@[i + t] == pat@[t],
        decreases m - j,
    {
        if s.get_char(i + j) != pat.get_char(j) {
            proof {
                assert(s@.subrange(i as int, i as int + m as int)[j as int] != pat@[j as int]);
            }
            return false;
        }
        j = j + 1;
    }
    proof {
        assert(s@.subrange(i as int, i as int + m as int) =~= pat@);
    }
    true
}

/// The first position at or after `from` holding `c`, if any.
fn find_char(s: &str, from: usize, c: char) -> (r: Option<usize>)
    ensures
        match r {
            Some(j) => j == find_from(s@, from as int, c),
            None => find_from(s@, from as int, c) == -1,
        },
{
    let n: usize = s.unicode_len();
    let mut i: usize = from;
    while i < n
        invariant
            n == s@.len(),
            from <= i,
            find_from(s@, from as int, c) == find_from(s@, i as int, c),
        decreases n - i,
    {
        if s.get_char(i) == c {
            return Some(i);
        }
        i = i + 1;
    }
    None
}

/// Whether `c` is XML whitespace.
fn is_space(c: char) -> (b: bool)
    ensures
        b == is_space_char(c),
{
    c == ' ' || c == '\t' || c == '\r' || c == '\n'
}

/// Decodes element text: every character is copied, except the five
/// predefined entities, which are replaced. `None` where an entity is
/// unterminated or unknown.
fn unescape(s: &str) -> (r: Option<String>)
    ensures
        match r {
            Some(t) => unescape_from(s@, 0) == Some(t@),
            None => unescape_from(s@, 0) is None,
        },
{
    let n: usize = s.unicode_len();
    let mut out = String::new();
    let mut i: usize = 0;
    while i < n
        invariant
            n == s@.len(),
            i <= n,
            unescape_from(s@, 0) == match unescape_from(s@, i as int) {
                Some(r) => Some(out@ + r),
                None => None::<Seq<char>>,
            },
        decreases n - i,
    {
        let c = s.get_char(i);
        if c != '&' {
            let ghost pre = out@;
            out.append(s.substring_char(i, i + 1));
            proof {
                assert(s@.subrange(i as int, i as int + 1) =~= seq![s@[i as int]]);
                if unescape_from(s@, i + 1) is Some {
                    let r = unescape_from(s@, i + 1)->Some_0;
                    assert(pre + (seq![s@[i as int]] + r) =~= out@ + r);
                }
            }
            i = i + 1;
        } else {
            let sc = match find_char(s, i + 1, ';') {
                Some(j) => j,
                None => {
                    return None;
                },
            };
            proof {
                lemma_find_from_bounds(s@, i + 1, ';');
            }
            let name_len: usize = sc - i - 1;
            let ghost name = s@.subrange(i + 1, sc as int);
            let rep: &'static str = if name_len == 2 && has_at(s, i + 1, "lt") {
                proof {
                    reveal_strlit("lt");
                    assert(name =~= seq!['l', 't']);
                    reveal_strlit("<");
                }
                "<"
            } else if name_len == 2 && has_at(s, i + 1, "gt") {
                proof {
                    reveal_strlit("gt");
                    assert(name =~= seq!['g', 't']);
                    reveal_strlit(">");
                }
                ">"
            } else if name_len == 3 && has_at(s, i + 1, "amp") {
                proof {
                    reveal_strlit("amp");
                    assert(name =~= seq!['a', 'm', 'p']);
                    reveal_strlit("&");
                }
                "&"
            } else if name_len == 4 && has_at(s, i + 1, "apos") {
                proof {
                    reveal_strlit("apos");
                    assert(name =~= seq!['a', 'p', 'o', 's']);
                    reveal_strlit("'");
                }
                "'"
            } else if name_len == 4 && has_at(s, i + 1, "quot") {
                proof {
                    reveal_strlit("quot");
                    assert(name =~= seq!['q', 'u', 'o', 't']);
                    reveal_strlit("\"");
                }
                "\""
            } else {
                proof {
                    reveal_strlit("lt");
                    reveal_strlit("gt");
                    reveal_strlit("amp");
                    reveal_strlit("apos");
                    reveal_strlit("quot");
                    assert(entity_of(name) is None) by {
                        if name == seq!['l', 't'] {
                            assert(name =~= "lt"@);
                        }
                        if name == seq!['g', 't'] {
                            assert(name =~= "gt"@);
                        }
                        if name == seq!['a', 'm', 'p'] {
                            assert(name =~= "amp"@);
                        }
                        if name == seq!['a', 'p', 'o', 's'] {
                            assert(name =~= "apos"@);
                        }
                        if name == seq!['q', 'u', 'o', 't'] {
                            assert(name =~= "quot"@);
                        }
                    }
                }
                return None;
            };
            let ghost pre = out@;
            out.append(rep);
            proof {
                let ch = entity_of(name)->Some_0;
                assert(rep@ =~= seq![ch]);
                if unescape_from(s@, sc + 1) is Some {
                    let r = unescape_from(s@, sc + 1)->Some_0;
                    assert(pre + (seq![ch] + r) =~= out@ + r);
                }
            }
            i = sc + 1;
        }
    }
    proof {
        assert(unescape_from(s@, n as int) == Some(Seq::<char>::empty()));
        if unescape_from(s@, 0) is Some {
            let r = unescape_from(s@, 0)->Some_0;
            assert(out@ + Seq::<char>::empty() =~= out@);
        }
    }
    Some(out)
}

/// Converts a provider failure message: a plain message passes
/// through unchanged; a fault document is reduced to the text of its
/// first `Message` element where one is well formed, and otherwise
/// also passes through unchanged. Only the five predefined entities
/// are decoded; any other escape makes the whole document pass
/// through raw rather than risk a wrong reading.
pub fn translate(msg: &str) -> (r: String)
    ensures
        r@ == translate_spec(msg@),
{
    proof {
        reveal_strlit("<?xml");
    }
    if !has_at(msg, 0, "<?xml") {
        proof {
            assert("<?xml"@ =~= xml_decl());
            if msg@.len() >= 5 {
                assert(msg@.subrange(0, 5) != xml_decl());
            }
        }
        return msg.to_owned();
    }
    proof {
        assert("<?xml"@ =~= xml_decl());
        assert(is_fault_doc(msg@));
    }
    let n: usize = msg.unicode_len();
    let mut i: usize = 0;
    let mut tag: Option<usize> = None;
    let mut gt: usize = 0;
    proof {
        reveal_strlit("<Message");
        assert("<Message"@ =~= msg_open());
    }
    while n >= 8 && i <= n - 8 && tag.is_none()
        invariant
            n == msg@.len(),
            i <= n,
            tag is None ==> find_msg_tag(msg@, 0) == find_msg_tag(msg@, i as int),
            tag matches Some(t) ==> {
                &&& find_msg_tag(msg@, 0) == t
                &&& t == i
                &&& gt == find_from(msg@, t + 8, '>')
                &&& t + 8 <= gt < n
            },
            "<Message"@ == msg_open(),
        decreases n - i, (if tag is None { 1int } else { 0int }),
    {
        if has_at(msg, i, "<Message") {
            match find_char(msg, i + 8, '>') {
                Some(j) => {
                    proof {
                        lemma_find_from_bounds(msg@, i + 8, '>');
                    }
                    let direct: bool = j == i + 8;
                    let spaced: bool = if direct {
                        true
                    } else {
                        is_space(msg.get_char(i + 8))
                    };
                    if spaced && msg.get_char(j - 1) != '/' {
                        proof {
                            assert(valid_msg_start(msg@, i as int));
                        }
                        tag = Some(i);
                        gt = j;
                    } else {
                        proof {
                            assert(!valid_msg_start(msg@, i as int));
                        }
                        i = i + 1;
                    }
                },
                None => {
                    proof {
                        assert(!valid_msg_start(msg@, i as int));
                    }
                    i = i + 1;
                },
            }
        } else {
            proof {
                assert(!tag_name_at(msg@, i as int));
                assert(!valid_msg_start(msg@, i as int));
            }
            i = i + 1;
        }
    }
    let t: usize = match tag {
        Some(t) => t,
        None => {
            proof {
                assert(find_msg_tag(msg@, i as int) == -1);
            }
            return msg.to_owned();
        },
    };
    let k: usize = match find_char(msg, gt + 1, '<') {
        Some(k) => k,
        None => {
            return msg.to_owned();
        },
    };
    proof {
        lemma_find_from_bounds(msg@, gt + 1, '<');
        reveal_strlit("</Message>");
        assert("</Message>"@ =~= msg_close());
    }
    if !has_at(msg, k, "</Message>") {
        proof {
            if k + 10 <= msg@.len() {
                assert(msg@.subrange(k as int, k as int + 10) != msg_close());
            }
        }
        return msg.to_owned();
    }
    let content = msg.substring_char(gt + 1, k);
    match unescape(content) {
        Some(out) => out,
        None => msg.to_owned(),
    }
}

impl MetaError {
    /// Wraps a provider failure message, reducing a fault document to
    /// its embedded `Message` text as [`translate`] does.
    pub fn from_fault(msg: &str) -> (e: MetaError)
        ensures
            e.0@ == translate_spec(msg@),
    {
        MetaError(translate(msg))
    }
}

} // verus!
