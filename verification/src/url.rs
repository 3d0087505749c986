//! The address of a page: `http://host:port/path?searchpart`.

use vstd::prelude::*;
use vstd::string::StringExecFns;

use crate::text::{
    chars_of, find_char, first_index, is_number, lemma_index_in_window, number, read_number,
    string_of_range,
};

verus! {

/// What an address is made of.
pub struct UrlView {
    /// The address as it was written.
    pub url: Seq<char>,
    pub host: Seq<char>,
    pub port: Seq<char>,
    pub path: Seq<char>,
    pub searchpart: Seq<char>,
}

/// The scheme that an address has to start with.
pub open spec fn scheme() -> Seq<char> {
    "http://"@
}

/// Whether the address starts with the scheme.
pub open spec fn is_http(url: Seq<char>) -> bool {
    url.len() >= scheme().len() && url.subrange(0, scheme().len() as int) == scheme()
}

/// The parts of an address. Behind the scheme, the host and the port reach
/// up to the first `/`, the port behind a `:` (and 80 where none is
/// written); the path follows the `/` up to the first `?`, and the
/// searchpart follows that.
pub open spec fn parts(url: Seq<char>) -> UrlView {
    let rest = url.subrange(scheme().len() as int, url.len() as int);
    let slash = first_index(rest, '/', 0);
    let authority = rest.subrange(0, slash);
    let colon = first_index(authority, ':', 0);
    let tail = if slash < rest.len() {
        rest.subrange(slash + 1, rest.len() as int)
    } else {
        Seq::empty()
    };
    let mark = first_index(tail, '?', 0);
    UrlView {
        url,
        host: authority.subrange(0, colon),
        port: if colon < authority.len() {
            authority.subrange(colon + 1, authority.len() as int)
        } else {
            "80"@
        },
        path: tail.subrange(0, mark),
        searchpart: if mark < tail.len() {
            tail.subrange(mark + 1, tail.len() as int)
        } else {
            Seq::empty()
        },
    }
}

#[derive(Debug, Clone, PartialEq, Eq)]
pub struct Url {
    url: String,
    host: String,
    port: String,
    path: String,
    searchpart: String,
}

impl View for Url {
    type V = UrlView;

    closed spec fn view(&self) -> UrlView {
        UrlView {
            url: self.url@,
            host: self.host@,
            port: self.port@,
            path: self.path@,
            searchpart: self.searchpart@,
        }
    }
}

impl Url {
    /// The address as written, its parts not yet read.
    pub fn new(url: String) -> (u: Self)
        ensures
            u@ == (UrlView {
                url: url@,
                host: Seq::empty(),
                port: Seq::empty(),
                path: Seq::empty(),
                searchpart: Seq::empty(),
            }),
    {
        Url {
            url,
            host: String::new(),
            port: String::new(),
            path: String::new(),
            searchpart: String::new(),
        }
    }

    /// Reads the parts of the address. An address that does not start with
    /// `http://` is refused, and left as it is.
    pub fn parse(&mut self) -> (result: Result<Url, String>)
        ensures
            is_http(old(self)@.url) ==> result is Ok && result->Ok_0@ == parts(old(self)@.url)
                && final(self)@ == parts(old(self)@.url),
            !is_http(old(self)@.url) ==> result is Err && result->Err_0@
                == "Only HTTP scheme is supported."@ && final(self)@ == old(self)@,
    {
        let chars = chars_of(self.url.as_str());
        proof {
            reveal_strlit("http://");
        }
        let n = chars.len();
        if !(n >= 7 && chars[0] == 'h' && chars[1] == 't' && chars[2] == 't' && chars[3] == 'p'
            && chars[4] == ':' && chars[5] == '/' && chars[6] == '/') {
            assert(!is_http(self@.url)) by {
                if is_http(self@.url) {
                    let head = self@.url.subrange(0, 7);
                    assert(head[0] == 'h' && head[1] == 't' && head[2] == 't' && head[3] == 'p'
                        && head[4] == ':' && head[5] == '/' && head[6] == '/');
                }
            }
            return Err(String::from_str("Only HTTP scheme is supported."));
        }
        assert(chars@.subrange(0, 7) =~= scheme());
        let ghost rest = chars@.subrange(7, n as int);
        let slash = find_char(&chars, '/', 7, n);
        let colon = find_char(&chars, ':', 7, slash);
        let tail_start = if slash < n {
            slash + 1
        } else {
            n
        };
        let mark = find_char(&chars, '?', tail_start, n);
        proof {
            lemma_index_in_window(chars@, '/', 7, n as int, 7);
            assert(chars@.subrange(0, n as int) =~= chars@);
            let authority = rest.subrange(0, slash - 7);
            assert(authority =~= chars@.subrange(7, slash as int));
            lemma_index_in_window(chars@, ':', 7, slash as int, 7);
            let tail = if slash < n {
                rest.subrange(slash - 7 + 1, rest.len() as int)
            } else {
                Seq::empty()
            };
            assert(tail =~= chars@.subrange(tail_start as int, n as int));
            lemma_index_in_window(chars@, '?', tail_start as int, n as int, tail_start as int);
            assert(authority.subrange(0, colon - 7) =~= chars@.subrange(7, colon as int));
            if colon < slash {
                assert(authority.subrange(colon - 7 + 1, authority.len() as int) =~= chars@.subrange(
                    colon + 1,
                    slash as int,
                ));
            }
            assert(tail.subrange(0, mark - tail_start) =~= chars@.subrange(
                tail_start as int,
                mark as int,
            ));
            if mark < n {
                assert(tail.subrange(mark - tail_start + 1, tail.len() as int) =~= chars@.subrange(
                    mark + 1,
                    n as int,
                ));
            }
            assert(rest == self@.url.subrange(scheme().len() as int, self@.url.len() as int));
            assert(slash - 7 == first_index(rest, '/', 0));
            assert(colon - 7 == first_index(authority, ':', 0));
            assert(mark - tail_start == first_index(tail, '?', 0));
        }
        self.host = string_of_range(&chars, 7, colon);
        self.port = if colon < slash {
            string_of_range(&chars, colon + 1, slash)
        } else {
            String::from_str("80")
        };
        self.path = string_of_range(&chars, tail_start, mark);
        self.searchpart = if mark < n {
            string_of_range(&chars, mark + 1, n)
        } else {
            assert(chars@.subrange(n as int, n as int) =~= Seq::<char>::empty());
            String::new()
        };
        Ok(self.duplicate())
    }

    pub fn host(&self) -> (s: String)
        ensures
            s@ == self@.host,
    {
        self.host.clone()
    }

    pub fn port(&self) -> (s: String)
        ensures
            s@ == self@.port,
    {
        self.port.clone()
    }

    /// The port as a number, where it is written as one that a port can
    /// have.
    pub fn port_number(&self) -> (port: Option<u16>)
        ensures
            match port {
                Some(p) => is_number(self@.port) && p == number(self@.port),
                None => !(is_number(self@.port) && number(self@.port) <= u16::MAX),
            },
    {
        let chars = chars_of(self.port.as_str());
        match read_number(&chars, 0xffff) {
            Some(n) => Some(n as u16),
            None => None,
        }
    }

    pub fn path(&self) -> (s: String)
        ensures
            s@ == self@.path,
    {
        self.path.clone()
    }

    pub fn searchpart(&self) -> (s: String)
        ensures
            s@ == self@.searchpart,
    {
        self.searchpart.clone()
    }

    /// A copy of this address.
    pub fn duplicate(&self) -> (u: Self)
        ensures
            u@ == self@,
    {
        Url {
            url: self.url.clone(),
            host: self.host.clone(),
            port: self.port.clone(),
            path: self.path.clone(),
            searchpart: self.searchpart.clone(),
        }
    }
}

} // verus!
