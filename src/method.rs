//! HTTP methods, named case-insensitively at registration.

use vstd::prelude::*;
use vstd::string::*;

verus! {

/// The methods a route can be registered for.
#[derive(Debug, Clone, Copy, PartialEq, Eq, Structural)]
pub enum Method {
    Get,
    Post,
    Head,
    Put,
    Delete,
    Connect,
}

/// `c` is `u` (an upper-case ASCII letter) in either case.
pub open spec fn same_letter(c: char, u: char) -> bool {
    c == u || ((u as u32) < 128 && c as u32 == (u as u32) + 32)
}

/// `s` spells the upper-case word `w`, ignoring ASCII case.
pub open spec fn spells(s: Seq<char>, w: Seq<char>) -> bool {
    s.len() == w.len() && forall|i: int| 0 <= i < s.len() ==> same_letter(#[trigger] s[i], w[i])
}

/// The upper-case name of a method.
pub open spec fn method_text(m: Method) -> Seq<char> {
    match m {
        Method::Get => seq!['G', 'E', 'T'],
        Method::Post => seq!['P', 'O', 'S', 'T'],
        Method::Head => seq!['H', 'E', 'A', 'D'],
        Method::Put => seq!['P', 'U', 'T'],
        Method::Delete => seq!['D', 'E', 'L', 'E', 'T', 'E'],
        Method::Connect => seq!['C', 'O', 'N', 'N', 'E', 'C', 'T'],
    }
}

/// The method that `s` names, ignoring ASCII case.
pub open spec fn method_named(s: Seq<char>) -> Option<Method> {
    if spells(s, method_text(Method::Get)) {
        Some(Method::Get)
    } else if spells(s, method_text(Method::Post)) {
        Some(Method::Post)
    } else if spells(s, method_text(Method::Head)) {
        Some(Method::Head)
    } else if spells(s, method_text(Method::Put)) {
        Some(Method::Put)
    } else if spells(s, method_text(Method::Delete)) {
        Some(Method::Delete)
    } else if spells(s, method_text(Method::Connect)) {
        Some(Method::Connect)
    } else {
        None
    }
}

/// Whether `s` spells the upper-case word `w`, ignoring ASCII case.
fn spells_word(s: &str, w: &[char]) -> (r: bool)
    ensures
        r == spells(s@, w@),
{
    let n = s.unicode_len();
    if n != w.len() {
        return false;
    }
    let mut i: usize = 0;
    while i < n
        invariant
            n == s@.len(),
            n == w@.len(),
            i <= n,
            forall|k: int| 0 <= k < i ==> same_letter(#[trigger] s@[k], w@[k]),
        decreases n - i,
    {
        let c = s.get_char(i);
        let u = w[i];
        let cu = c as u32;
        let uu = u as u32;
        if !(c == u || (uu < 128 && cu == uu + 32)) {
            return false;
        }
        i = i + 1;
    }
    true
}

impl Method {
    /// The method that `name` spells, in any ASCII case.
    pub fn from_name(name: &str) -> (r: Option<Method>)
        ensures
            r == method_named(name@),
    {
        let get = ['G', 'E', 'T'];
        let post = ['P', 'O', 'S', 'T'];
        let head = ['H', 'E', 'A', 'D'];
        let put = ['P', 'U', 'T'];
        let delete = ['D', 'E', 'L', 'E', 'T', 'E'];
        let connect = ['C', 'O', 'N', 'N', 'E', 'C', 'T'];
        assert(get@ =~= method_text(Method::Get));
        assert(post@ =~= method_text(Method::Post));
        assert(head@ =~= method_text(Method::Head));
        assert(put@ =~= method_text(Method::Put));
        assert(delete@ =~= method_text(Method::Delete));
        assert(connect@ =~= method_text(Method::Connect));
        if spells_word(name, &get) {
            Some(Method::Get)
        } else if spells_word(name, &post) {
            Some(Method::Post)
        } else if spells_word(name, &head) {
            Some(Method::Head)
        } else if spells_word(name, &put) {
            Some(Method::Put)
        } else if spells_word(name, &delete) {
            Some(Method::Delete)
        } else if spells_word(name, &connect) {
            Some(Method::Connect)
        } else {
            None
        }
    }

    /// The upper-case name of the method.
    pub fn name(&self) -> (r: String)
        ensures
            r@ == method_text(*self),
    {
        let s = match self {
            Method::Get => "GET",
            Method::Post => "POST",
            Method::Head => "HEAD",
            Method::Put => "PUT",
            Method::Delete => "DELETE",
            Method::Connect => "CONNECT",
        };
        proof {
            reveal_strlit("GET");
            reveal_strlit("POST");
            reveal_strlit("HEAD");
            reveal_strlit("PUT");
            reveal_strlit("DELETE");
            reveal_strlit("CONNECT");
        }
        assert(s@ =~= method_text(*self));
        s.to_owned()
    }
}

/// Whether `attr` names a known method, in any ASCII case.
pub fn is_method_attribute_valid(attr: &str) -> (r: bool)
    ensures
        r == method_named(attr@) is Some,
{
    Method::from_name(attr).is_some()
}

} // verus!
