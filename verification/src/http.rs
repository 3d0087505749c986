//! The request that the browser sends for a page, and the response that
//! comes back.

use vstd::prelude::*;
use vstd::string::StringExecFns;

use crate::text::{
    chars_of, find_char, first_index, is_number, number, read_number, same_text, slice_of,
    string_of, string_of_range, trim_in, trim_start, trim_start_in, trimmed, views,
};

verus! {

/// The text of the request for `path` on `host`: the request line, the
/// headers `Host`, `Accept` and `Connection`, and an empty line.
pub open spec fn request_text(host: Seq<char>, path: Seq<char>) -> Seq<char> {
    "GET /"@ + path + " HTTP/1.1\n"@ + "Host: "@ + host + "\n"@ + "Accept: text/html\n"@
        + "Connection: close\n"@ + "\n"@
}

pub struct HttpClient {}

impl HttpClient {
    pub fn new() -> Self {
        HttpClient {  }
    }

    /// The text that is sent to `host` to get `path`.
    pub fn request(&self, host: &str, path: &str) -> (request: String)
        ensures
            request@ == request_text(host@, path@),
    {
        let mut request = String::from_str("GET /");
        request.append(path);
        request.append(" HTTP/1.1\n");
        request.append("Host: ");
        request.append(host);
        request.append("\n");
        request.append("Accept: text/html\n");
        request.append("Connection: close\n");
        request.append("\n");
        request
    }
}

/// One header of a response.
pub struct HeaderView {
    pub name: Seq<char>,
    pub value: Seq<char>,
}

#[derive(Debug, Clone, PartialEq, Eq)]
pub struct Header {
    name: String,
    value: String,
}

impl View for Header {
    type V = HeaderView;

    closed spec fn view(&self) -> HeaderView {
        HeaderView { name: self.name@, value: self.value@ }
    }
}

impl Header {
    pub fn new(name: String, value: String) -> (h: Self)
        ensures
            h@ == (HeaderView { name: name@, value: value@ }),
    {
        Header { name, value }
    }

    pub fn name(&self) -> (s: String)
        ensures
            s@ == self@.name,
    {
        self.name.clone()
    }

    pub fn value(&self) -> (s: String)
        ensures
            s@ == self@.value,
    {
        self.value.clone()
    }
}

/// A response as a mathematical value.
pub struct HttpResponseView {
    pub version: Seq<char>,
    pub status_code: u32,
    pub reason: Seq<char>,
    pub headers: Seq<HeaderView>,
    pub body: Seq<char>,
}

/// The first `upto` characters of `s`, with every line end `\r\n` written
/// as `\n`.
pub open spec fn unix_lines(s: Seq<char>, upto: int) -> Seq<char>
    decreases upto,
{
    if upto <= 0 {
        Seq::empty()
    } else {
        let before = unix_lines(s, upto - 1);
        if s[upto - 1] == '\r' && upto < s.len() && s[upto] == '\n' {
            before
        } else {
            before.push(s[upto - 1])
        }
    }
}

/// The place from `from` on where two line feeds follow each other, or the
/// length of `s` where none do.
pub open spec fn blank_line(s: Seq<char>, from: int) -> int
    decreases s.len() - from,
{
    if from < 0 || from + 1 >= s.len() {
        s.len() as int
    } else if s[from] == '\n' && s[from + 1] == '\n' {
        from
    } else {
        blank_line(s, from + 1)
    }
}

/// The header that a line stands for: the name before the first colon and
/// the value behind it, both without blanks at their ends.
pub open spec fn header_of(line: Seq<char>) -> HeaderView {
    let colon = first_index(line, ':', 0);
    HeaderView {
        name: trimmed(line.subrange(0, colon)),
        value: if colon < line.len() {
            trimmed(line.subrange(colon + 1, line.len() as int))
        } else {
            Seq::empty()
        },
    }
}

/// The headers that the lines of a text stand for.
pub open spec fn headers_of(text: Seq<char>) -> Seq<HeaderView>
    decreases text.len(),
{
    let end = first_index(text, '\n', 0);
    if 0 <= end < text.len() {
        seq![header_of(text.subrange(0, end))] + headers_of(
            text.subrange(end + 1, text.len() as int),
        )
    } else {
        seq![header_of(text)]
    }
}

/// Word number `k` of a line whose words are separated by single spaces;
/// nothing where the line has fewer words.
pub open spec fn word(line: Seq<char>, k: nat) -> Seq<char>
    decreases k,
{
    let end = first_index(line, ' ', 0);
    if k == 0 {
        line.subrange(0, end)
    } else if 0 <= end < line.len() {
        word(line.subrange(end + 1, line.len() as int), (k - 1) as nat)
    } else {
        Seq::empty()
    }
}

/// The status that a word stands for: its number, and 404 where it is no
/// number that the machine can hold.
pub open spec fn status_of(s: Seq<char>) -> u32 {
    if is_number(s) && number(s) <= u32::MAX {
        number(s) as u32
    } else {
        404
    }
}

/// The response that a text stands for. Blanks before it are dropped and
/// line ends `\r\n` are read as `\n`. The first line is the status line:
/// the version, the status and the reason, one word each. Up to the first
/// empty line the headers follow, one on each line; the body is what
/// follows the empty line. Where there is no empty line there are no
/// headers, and the body is all that follows the status line. A text of
/// one line only is no response.
pub open spec fn response_of(raw: Seq<char>) -> Option<HttpResponseView> {
    let started = trim_start(raw);
    let text = unix_lines(started, started.len() as int);
    let line_end = first_index(text, '\n', 0);
    if line_end >= text.len() {
        None
    } else {
        let status_line = text.subrange(0, line_end);
        let remaining = text.subrange(line_end + 1, text.len() as int);
        let gap = blank_line(remaining, 0);
        Some(
            HttpResponseView {
                version: word(status_line, 0),
                status_code: status_of(word(status_line, 1)),
                reason: word(status_line, 2),
                headers: if gap < remaining.len() {
                    headers_of(remaining.subrange(0, gap))
                } else {
                    Seq::empty()
                },
                body: if gap < remaining.len() {
                    remaining.subrange(gap + 2, remaining.len() as int)
                } else {
                    remaining
                },
            },
        )
    }
}

/// The value of the first header called `name`, searching from `from`.
pub open spec fn header_value_from(headers: Seq<HeaderView>, name: Seq<char>, from: int) -> Option<
    Seq<char>,
>
    decreases headers.len() - from,
{
    if from < 0 || from >= headers.len() {
        None
    } else if headers[from].name == name {
        Some(headers[from].value)
    } else {
        header_value_from(headers, name, from + 1)
    }
}

/// What is to be done with a response.
#[derive(Debug, Clone, PartialEq, Eq)]
pub enum Navigation {
    /// The response is the page.
    Show,
    /// The page is to be got from this address instead.
    Follow(String),
}

pub enum NavigationView {
    Show,
    Follow(Seq<char>),
}

impl View for Navigation {
    type V = NavigationView;

    open spec fn view(&self) -> NavigationView {
        match *self {
            Navigation::Show => NavigationView::Show,
            Navigation::Follow(s) => NavigationView::Follow(s@),
        }
    }
}

/// What is to be done with a response: a response with status 302 that
/// names a `Location` is followed there, once; every other response is
/// shown. `redirecting` says that the response was got by following.
pub open spec fn navigation_after(redirecting: bool, response: HttpResponseView) -> NavigationView {
    if !redirecting && response.status_code == 302 {
        match header_value_from(response.headers, "Location"@, 0) {
            Some(location) => NavigationView::Follow(location),
            None => NavigationView::Show,
        }
    } else {
        NavigationView::Show
    }
}

#[derive(Debug, Clone, PartialEq, Eq)]
pub struct HttpResponse {
    version: String,
    status_code: u32,
    reason: String,
    headers: Vec<Header>,
    body: String,
}

impl View for HttpResponse {
    type V = HttpResponseView;

    closed spec fn view(&self) -> HttpResponseView {
        HttpResponseView {
            version: self.version@,
            status_code: self.status_code,
            reason: self.reason@,
            headers: views(self.headers@),
            body: self.body@,
        }
    }
}

impl HttpResponse {
    /// Reads a response from the text that was received.
    pub fn new(raw_response: String) -> (result: Result<Self, String>)
        ensures
            match result {
                Ok(response) => response_of(raw_response@) == Some(response@),
                Err(message) => response_of(raw_response@) is None && message@
                    == "invalid http response"@,
            },
    {
        let raw = chars_of(raw_response.as_str());
        let start = trim_start_in(&raw, 0, raw.len());
        assert(raw@.subrange(0, raw@.len() as int) =~= raw@);
        let started = slice_of(&raw, start, raw.len());
        let text = with_unix_lines(&started);
        let line_end = find_char(&text, '\n', 0, text.len());
        assert(text@.subrange(0, text@.len() as int) =~= text@);
        if line_end >= text.len() {
            return Err(String::from_str("invalid http response"));
        }
        let status_line = slice_of(&text, 0, line_end);
        let remaining = slice_of(&text, line_end + 1, text.len());
        let gap = find_blank_line(&remaining);
        let (headers, body) = if gap < remaining.len() {
            let head = slice_of(&remaining, 0, gap);
            (read_headers(&head), string_of_range(&remaining, gap + 2, remaining.len()))
        } else {
            let none: Vec<Header> = Vec::new();
            assert(views(none@) =~= Seq::<HeaderView>::empty());
            assert(remaining@.subrange(0, remaining@.len() as int) =~= remaining@);
            (none, string_of(&remaining))
        };
        let version = take_word(&status_line, 0);
        let status = take_word(&status_line, 1);
        let reason = take_word(&status_line, 2);
        Ok(
            HttpResponse {
                version: string_of(&version),
                status_code: read_status(&status),
                reason: string_of(&reason),
                headers,
                body,
            },
        )
    }

    /// What is to be done with this response.
    pub fn navigation(&self, redirecting: bool) -> (next: Navigation)
        ensures
            next@ == navigation_after(redirecting, self@),
    {
        if !redirecting && self.status_code == 302 {
            match self.header_value("Location") {
                Ok(location) => Navigation::Follow(location),
                Err(_) => Navigation::Show,
            }
        } else {
            Navigation::Show
        }
    }

    pub fn version(&self) -> (s: String)
        ensures
            s@ == self@.version,
    {
        self.version.clone()
    }

    pub fn status_code(&self) -> (code: u32)
        ensures
            code == self@.status_code,
    {
        self.status_code
    }

    pub fn reason(&self) -> (s: String)
        ensures
            s@ == self@.reason,
    {
        self.reason.clone()
    }

    pub fn body(&self) -> (s: String)
        ensures
            s@ == self@.body,
    {
        self.body.clone()
    }

    /// The value of the first header called `name`.
    pub fn header_value(&self, name: &str) -> (value: Result<String, String>)
        ensures
            match value {
                Ok(v) => header_value_from(self@.headers, name@, 0) == Some(v@),
                Err(message) => header_value_from(self@.headers, name@, 0) is None && message@
                    == "failed to find "@ + name@ + " in headers"@,
            },
    {
        let mut i: usize = 0;
        while i < self.headers.len()
            invariant
                i <= self.headers@.len(),
                header_value_from(self@.headers, name@, 0) == header_value_from(
                    self@.headers,
                    name@,
                    i as int,
                ),
            decreases self.headers@.len() - i,
        {
            let header_name = self.headers[i].name();
            if same_text(header_name.as_str(), name) {
                return Ok(self.headers[i].value());
            }
            i += 1;
        }
        let mut message = String::from_str("failed to find ");
        message.append(name);
        message.append(" in headers");
        Err(message)
    }
}

/// The text with every line end `\r\n` written as `\n`.
fn with_unix_lines(text: &Vec<char>) -> (unix: Vec<char>)
    ensures
        unix@ == unix_lines(text@, text@.len() as int),
{
    let mut unix: Vec<char> = Vec::new();
    let mut i: usize = 0;
    while i < text.len()
        invariant
            i <= text@.len(),
            unix@ == unix_lines(text@, i as int),
        decreases text@.len() - i,
    {
        let c = text[i];
        let dropped = c == '\r' && i + 1 < text.len() && text[i + 1] == '\n';
        if !dropped {
            unix.push(c);
        }
        i += 1;
    }
    unix
}

/// The place where two line feeds follow each other, as `blank_line` says.
fn find_blank_line(text: &Vec<char>) -> (at: usize)
    ensures
        at == blank_line(text@, 0),
        at <= text@.len(),
        at < text@.len() ==> at + 2 <= text@.len(),
{
    let mut i: usize = 0;
    loop
        invariant
            i <= text@.len(),
            blank_line(text@, i as int) == blank_line(text@, 0),
        decreases text@.len() - i,
    {
        let len = text.len();
        if len < 2 || i >= len - 1 {
            return len;
        }
        if text[i] == '\n' && text[i + 1] == '\n' {
            return i;
        }
        i += 1;
    }
}

/// The header that a line stands for, as `header_of` says.
fn read_header(line: &Vec<char>) -> (header: Header)
    ensures
        header@ == header_of(line@),
{
    let colon = find_char(line, ':', 0, line.len());
    assert(line@.subrange(0, line@.len() as int) =~= line@);
    let name_ends = trim_in(line, 0, colon);
    let name = string_of_range(line, name_ends.0, name_ends.1);
    let value = if colon < line.len() {
        let value_ends = trim_in(line, colon + 1, line.len());
        string_of_range(line, value_ends.0, value_ends.1)
    } else {
        String::new()
    };
    Header::new(name, value)
}

/// The headers that the lines of a text stand for, as `headers_of` says.
fn read_headers(text: &Vec<char>) -> (headers: Vec<Header>)
    ensures
        views(headers@) == headers_of(text@),
{
    let mut headers: Vec<Header> = Vec::new();
    let mut rest: Vec<char> = slice_of(text, 0, text.len());
    assert(text@.subrange(0, text@.len() as int) =~= text@);
    assert(views(headers@) =~= Seq::<HeaderView>::empty());
    loop
        invariant
            views(headers@) + headers_of(rest@) == headers_of(text@),
        decreases rest@.len(),
    {
        let ghost done = views(headers@);
        let ghost before = rest@;
        let end = find_char(&rest, '\n', 0, rest.len());
        assert(rest@.subrange(0, rest@.len() as int) =~= rest@);
        if end < rest.len() {
            let line = slice_of(&rest, 0, end);
            let header = read_header(&line);
            headers.push(header);
            rest = slice_of(&rest, end + 1, rest.len());
            assert(views(headers@) =~= done.push(header@));
            assert(done.push(header@) + headers_of(rest@) =~= done + headers_of(before));
        } else {
            let header = read_header(&rest);
            headers.push(header);
            assert(views(headers@) =~= done.push(header@));
            assert(done.push(header@) =~= done + headers_of(before));
            return headers;
        }
    }
}

/// Word number `k` of a line, as `word` says.
fn take_word(line: &Vec<char>, k: usize) -> (w: Vec<char>)
    ensures
        w@ == word(line@, k as nat),
{
    let mut rest: Vec<char> = slice_of(line, 0, line.len());
    assert(line@.subrange(0, line@.len() as int) =~= line@);
    let mut left: usize = k;
    loop
        invariant
            word(rest@, left as nat) == word(line@, k as nat),
        decreases left,
    {
        let end = find_char(&rest, ' ', 0, rest.len());
        assert(rest@.subrange(0, rest@.len() as int) =~= rest@);
        if left == 0 {
            return slice_of(&rest, 0, end);
        }
        if end >= rest.len() {
            return Vec::new();
        }
        rest = slice_of(&rest, end + 1, rest.len());
        left -= 1;
    }
}

/// The status that a word stands for, as `status_of` says.
fn read_status(s: &Vec<char>) -> (status: u32)
    ensures
        status == status_of(s@),
{
    match read_number(s, 0xffff_ffff) {
        Some(n) => n as u32,
        None => 404,
    }
}

} // verus!
