//! The HTTP side of a download: the request texts that are sent, and what is
//! read out of the answers.
use vstd::prelude::*;
use vstd::string::*;

use crate::functions::{items_view, url_is_supported, url_is_valid, url_parts, LocalFunctions};
use crate::structs::{ReqError, UrlItems};
use crate::text::{
    after_last, after_last_exec, chars_of, lemma_split_once_char, lower, lower_seq, contains_ci, contains_str, decimal, find, has_substring,
    has_substring_ci, lemma_decimal_no_newline, lemma_find_from, lemma_lines_concat,
    lemma_find_from_is, lemma_lines_crlf, lemma_lines_no_newline, lines, lines_of, no_newline,
    occurs_at, parse_usize, parse_usize_spec, push_decimal, split_once, split_once_spec,
    starts_with_ci, starts_with_ci_exec, trim, trim_str, views,
};

verus! {

/// `"\r\n"`
pub open spec fn crlf() -> Seq<char> {
    seq!['\r', '\n']
}

/// The browser line sent with every request.
pub open spec fn user_agent_line() -> Seq<char> {
    "User-Agent: Mozilla/5.0 (X11; Linux x86_64) AppleWebKit/537.36 (KHTML, like Gecko) Chrome/112.0.0.0 Safari/537.36\r\n"@
}

/// The request line, ended by `"\r\n"`: as given when it already ends so,
/// else with `"\r\n"` added.
pub open spec fn line_ended(line: Seq<char>) -> Seq<char> {
    if line.len() >= 2 && line.subrange(line.len() - 2, line.len() as int) == crlf() {
        line
    } else {
        line + crlf()
    }
}

/// The request text for `protocol_path` (the request line) sent to host
/// `dns`: the request line ended by `"\r\n"`, a `Host` line, the browser
/// line, and the empty line that ends the header.
pub open spec fn header_spec(dns: Seq<char>, protocol_path: Seq<char>) -> Seq<char> {
    line_ended(protocol_path) + "Host: "@ + dns + crlf() + user_agent_line() + crlf()
}

/// A download request: its address, the parts of the address, and the size
/// of the file once it is known.
#[derive(Debug, Clone, Copy)]
pub struct Reqwest {
    url: &'static str,
    url_items: UrlItems,
    file_size: usize,
}

/// What a `Reqwest` holds, as plain values.
pub struct ReqwestView {
    pub url: Seq<char>,
    pub items: (Seq<char>, Seq<char>, Seq<char>, bool),
    pub file_size: nat,
}

impl View for Reqwest {
    type V = ReqwestView;

    closed spec fn view(&self) -> ReqwestView {
        ReqwestView {
            url: self.url@,
            items: items_view(self.url_items),
            file_size: self.file_size as nat,
        }
    }
}

impl Reqwest {
    /// The request for `url`, before the size of the file is known (it reads 0).
    pub fn new(url: &'static str) -> (r: Result<Self, ReqError>)
        requires
            url_is_valid(url@),
        ensures
            r matches Ok(q) && q@.url == url@ && q@.items == url_parts(url@) && q@.file_size == 0,
    {
        if let Some(url_items) = url.split_url() {
            Ok(Reqwest { url: url, url_items: url_items, file_size: 0 })
        } else {
            Err(ReqError::ErrorFound(">>>>>> Invalid Url struct <<<<<<"))
        }
    }

    /// Records what the size lookup found: the size, or an error when the
    /// lookup failed.
    pub fn with_file_size(self, found: Option<usize>) -> (r: Result<Self, ReqError>)
        ensures
            match found {
                Some(n) => r matches Ok(q) && q@.url == self@.url && q@.items == self@.items
                    && q@.file_size == n,
                None => r == Err::<Self, ReqError>(ReqError::ErrorFound("File Size ERRor!!!!!!")),
            },
    {
        match found {
            Some(n) => Ok(Reqwest { file_size: n, ..self }),
            None => Err(ReqError::ErrorFound("File Size ERRor!!!!!!")),
        }
    }

    /// The size of the file, in bytes.
    pub fn get_filesize(&self) -> (r: usize)
        ensures
            r == self@.file_size,
    {
        self.file_size
    }

    /// The parts of the address.
    pub fn url_items(&self) -> (r: UrlItems)
        ensures
            items_view(r) == self@.items,
    {
        self.url_items
    }

    /// The request text for `protocol_path`, e.g. `"GET /image/img.jpg HTTP/1.0"`;
    /// the request line gets its `"\r\n"` when it does not end with one.
    pub fn header(&self, protocol_path: &str) -> (r: String)
        ensures
            r@ == header_spec(self@.items.0, protocol_path@),
    {
        build_header(self.url_items.dns, protocol_path)
    }
}

/// The request text for `protocol_path` sent to host `dns`.
pub fn build_header(dns: &str, protocol_path: &str) -> (r: String)
    ensures
        r@ == header_spec(dns@, protocol_path@),
{
    let mut header = String::from_str(protocol_path);
    let cs = chars_of(protocol_path);
    let n = cs.len();
    let ended = n >= 2 && cs[n - 2] == '\r' && cs[n - 1] == '\n';
    proof {
        let p = protocol_path@;
        if p.len() >= 2 {
            let tail = p.subrange(p.len() - 2, p.len() as int);
            assert(tail[0] == p[p.len() - 2] && tail[1] == p[p.len() - 1]);
            if ended {
                assert(tail =~= crlf());
            }
        }
    }
    if !ended {
        header.append("\r\n");
    }
    header.append("Host: ");
    header.append(dns);
    header.append("\r\n");
    header.append(
        "User-Agent: Mozilla/5.0 (X11; Linux x86_64) AppleWebKit/537.36 (KHTML, like Gecko) Chrome/112.0.0.0 Safari/537.36\r\n",
    );
    header.append("\r\n");
    proof {
        reveal_strlit("\r\n");
        assert("\r\n"@ =~= crlf());
    }
    header
}

/// `method + " /" + path + " HTTP/1.0\r\n"`: the request line for `path`.
pub open spec fn request_line(method: Seq<char>, path: Seq<char>) -> Seq<char> {
    method + " /"@ + path + " HTTP/1.0\r\n"@
}

/// The request line for `path` with the given method.
pub fn request_line_exec(method: &str, path: &str) -> (r: String)
    ensures
        r@ == request_line(method@, path@),
{
    let mut r = String::from_str(method);
    r.append(" /");
    r.append(path);
    r.append(" HTTP/1.0\r\n");
    r
}

/// `dns:port`, the address a connection goes to.
pub fn address(items: &UrlItems) -> (r: String)
    ensures
        r@ == items.dns@ + ":"@ + items.port@,
{
    let mut r = String::from_str(items.dns);
    r.append(":");
    r.append(items.port);
    r
}


/// Index of the first line from `i` on that passes `test`.
pub open spec fn first_where(ls: Seq<Seq<char>>, test: spec_fn(Seq<char>) -> bool, i: int) -> Option<int>
    decreases ls.len() - i,
{
    if i < 0 || i >= ls.len() {
        None
    } else if test(ls[i]) {
        Some(i)
    } else {
        first_where(ls, test, i + 1)
    }
}

/// A line passing the test at `k` with none before it from `i` on is the one `first_where` finds.
pub proof fn lemma_first_where_is(ls: Seq<Seq<char>>, test: spec_fn(Seq<char>) -> bool, i: int, k: Option<int>)
    requires
        0 <= i,
        match k {
            Some(k) => i <= k < ls.len() && test(ls[k]) && forall|j: int| i <= j < k ==> !test(#[trigger] ls[j]),
            None => forall|j: int| i <= j < ls.len() ==> !test(#[trigger] ls[j]),
        },
    ensures
        first_where(ls, test, i) == k,
    decreases ls.len() - i,
{
    if i < ls.len() && !test(ls[i]) {
        lemma_first_where_is(ls, test, i + 1, k);
    }
}

/// The line that the byte range follows: it mentions `User-Agent`.
pub open spec fn ua_test() -> spec_fn(Seq<char>) -> bool {
    |l: Seq<char>| has_substring(l, "User-Agent"@)
}

/// `Range: bytes=start-end` with its line ending.
pub open spec fn range_line(start: nat, end: nat) -> Seq<char> {
    "Range: bytes="@ + decimal(start) + seq!['-'] + decimal(end) + crlf()
}

/// The lines, each ended by `"\r\n"`, with `extra` right after line `pos`.
pub open spec fn join_with(ls: Seq<Seq<char>>, pos: int, extra: Seq<char>) -> Seq<char>
    decreases ls.len(),
{
    if ls.len() == 0 {
        Seq::empty()
    } else {
        join_with(ls.drop_last(), pos, extra) + ls.last() + crlf() + (if ls.len() - 1 == pos {
            extra
        } else {
            Seq::empty()
        })
    }
}

/// The request text with a byte range inserted right after the first line
/// that mentions `User-Agent`.
pub open spec fn with_range_spec(target: Seq<char>, start: nat, end: nat) -> Seq<char> {
    join_with(lines(target), first_where(lines(target), ua_test(), 0).unwrap(), range_line(start, end))
}

/// The first line from the start that mentions `User-Agent`, or the number of lines.
fn ua_position(ls: &Vec<&str>) -> (pos: usize)
    ensures
        pos <= ls.len(),
        pos < ls.len() ==> first_where(views(ls@), ua_test(), 0) == Some(pos as int),
        pos == ls.len() ==> first_where(views(ls@), ua_test(), 0) is None,
{
    let ghost lv = views(ls@);
    let ua = "User-Agent";
    let mut pos: usize = 0;
    while pos < ls.len() && !contains_str(ls[pos], ua)
        invariant
            pos <= ls.len(),
            views(ls@) == lv,
            ua@ == "User-Agent"@,
            forall|j: int| 0 <= j < pos ==> !(ua_test())(#[trigger] lv[j]),
        decreases ls.len() - pos,
    {
        assert(lv[pos as int] == ls@[pos as int]@);
        pos += 1;
    }
    proof {
        if pos < ls.len() {
            assert(lv[pos as int] == ls@[pos as int]@);
            lemma_first_where_is(lv, ua_test(), 0, Some(pos as int));
        } else {
            lemma_first_where_is(lv, ua_test(), 0, None);
        }
    }
    pos
}

/// `Range: bytes=start-end` with its line ending.
fn range_text(start: usize, end: usize) -> (r: String)
    ensures
        r@ == range_line(start as nat, end as nat),
{
    let mut range = String::from_str("Range: bytes=");
    push_decimal(&mut range, start);
    range.push('-');
    push_decimal(&mut range, end);
    range.append("\r\n");
    proof {
        reveal_strlit("\r\n");
        assert("\r\n"@ =~= crlf());
        assert(range@ =~= range_line(start as nat, end as nat));
    }
    range
}

/// The lines, each ended by `"\r\n"`, with `extra` right after line `pos`.
fn join_lines(ls: &Vec<&str>, pos: usize, extra: &str) -> (r: String)
    ensures
        r@ == join_with(views(ls@), pos as int, extra@),
{
    let ghost lv = views(ls@);
    let nl = "\r\n";
    proof {
        reveal_strlit("\r\n");
        assert(nl@ =~= crlf());
    }
    let mut out = String::new();
    let mut i: usize = 0;
    while i < ls.len()
        invariant
            i <= ls.len(),
            views(ls@) == lv,
            nl@ == crlf(),
            out@ == join_with(lv.take(i as int), pos as int, extra@),
        decreases ls.len() - i,
    {
        out.append(ls[i]);
        out.append(nl);
        if i == pos {
            out.append(extra);
        }
        proof {
            let t = lv.take(i + 1);
            assert(t.drop_last() =~= lv.take(i as int));
            assert(t.last() == ls@[i as int]@);
            assert(out@ =~= join_with(t, pos as int, extra@));
        }
        i += 1;
    }
    assert(lv.take(ls.len() as int) =~= lv);
    out
}

impl Reqwest {
    /// Asks for bytes `start..=end` only: `Range: bytes=start-end` goes right
    /// after the first line that mentions `User-Agent`, and every line is
    /// ended by `"\r\n"` again.
    pub fn header_add_range(target: String, start: usize, end: usize) -> (r: String)
        requires
            first_where(lines(target@), ua_test(), 0) is Some,
        ensures
            r@ == with_range_spec(target@, start as nat, end as nat),
    {
        let ls = lines_of(target.as_str());
        let pos = ua_position(&ls);
        let range = range_text(start, end);
        join_lines(&ls, pos, range.as_str())
    }
}


/// A line that passes the test makes `first_where` find one.
pub proof fn lemma_first_where_some(ls: Seq<Seq<char>>, test: spec_fn(Seq<char>) -> bool, i: int, j: int)
    requires
        0 <= i <= j < ls.len(),
        test(ls[j]),
    ensures
        first_where(ls, test, i) is Some,
    decreases j - i,
{
    if !test(ls[i]) {
        lemma_first_where_some(ls, test, i + 1, j);
    }
}

/// `Range: bytes=start-end`, the line that a ranged request adds.
pub open spec fn range_field(start: nat, end: nat) -> Seq<char> {
    "Range: bytes="@ + decimal(start) + seq!['-'] + decimal(end)
}

/// Lines joined with `"\r\n"` and an extra line after line `pos` break back
/// into the same lines with the extra one in its place.
pub proof fn lemma_join_lines(ls: Seq<Seq<char>>, pos: int, x: Seq<char>)
    requires
        0 <= pos,
        forall|k: int| 0 <= k < ls.len() ==> no_newline(#[trigger] ls[k]),
        no_newline(x),
    ensures
        lines(join_with(ls, pos, x + crlf())) == (if pos < ls.len() {
            ls.insert(pos + 1, x)
        } else {
            ls
        }),
    decreases ls.len(),
{
    if ls.len() == 0 {
        assert(lines(Seq::<char>::empty()) =~= Seq::<Seq<char>>::empty());
    } else {
        let n = ls.len() - 1;
        let pre = ls.drop_last();
        assert forall|k: int| 0 <= k < pre.len() implies no_newline(#[trigger] pre[k]) by {
            assert(pre[k] == ls[k]);
        }
        lemma_join_lines(pre, pos, x);
        let jp = join_with(pre, pos, x + crlf());
        assert(jp.len() == 0 || jp.last() == '\n') by {
            if pre.len() > 0 {
                lemma_join_ends(pre, pos, x + crlf());
            }
        }
        let last_part = ls.last() + crlf();
        lemma_lines_crlf(ls.last());
        lemma_lines_crlf(x);
        if n == pos {
            let tail = last_part + (x + crlf());
            assert(join_with(ls, pos, x + crlf()) =~= jp + tail);
            lemma_lines_concat(jp, tail);
            assert(last_part.last() == '\n');
            lemma_lines_concat(last_part, x + crlf());
            assert(lines(join_with(ls, pos, x + crlf())) =~= ls.insert(pos + 1, x));
        } else {
            assert(join_with(ls, pos, x + crlf()) =~= jp + last_part);
            lemma_lines_concat(jp, last_part);
            if pos < n {
                assert(lines(join_with(ls, pos, x + crlf())) =~= ls.insert(pos + 1, x));
            } else {
                assert(lines(join_with(ls, pos, x + crlf())) =~= ls);
            }
        }
    }
}

/// Joined lines end with a line feed.
proof fn lemma_join_ends(ls: Seq<Seq<char>>, pos: int, extra: Seq<char>)
    requires
        ls.len() > 0,
        extra.len() == 0 || extra.last() == '\n',
    ensures
        join_with(ls, pos, extra).last() == '\n',
{
}

/// The request text always has a line that mentions `User-Agent`, so a byte
/// range can always be added to it.
pub proof fn lemma_header_has_user_agent(dns: Seq<char>, protocol_path: Seq<char>)
    ensures
        first_where(lines(header_spec(dns, protocol_path)), ua_test(), 0) is Some,
{
    reveal_strlit(
        "User-Agent: Mozilla/5.0 (X11; Linux x86_64) AppleWebKit/537.36 (KHTML, like Gecko) Chrome/112.0.0.0 Safari/537.36\r\n",
    );
    reveal_strlit("Host: ");
    reveal_strlit("User-Agent");
    let ua = user_agent_line();
    let u = ua.subrange(0, ua.len() - 2);
    assert(ua =~= u + crlf());
    assert(no_newline(u));
    let x = line_ended(protocol_path) + "Host: "@ + dns + crlf();
    assert(header_spec(dns, protocol_path) =~= x + ((u + crlf()) + crlf()));
    lemma_lines_concat(x, (u + crlf()) + crlf());
    lemma_lines_concat(u + crlf(), crlf());
    lemma_lines_crlf(u);
    let ls = lines(header_spec(dns, protocol_path));
    let k = lines(x).len() as int;
    assert(ls[k] == u);
    assert(occurs_at(u, "User-Agent"@, 0)) by {
        assert(u.subrange(0, 10) =~= "User-Agent"@);
    }
    lemma_find_from(u, "User-Agent"@, 0);
    assert((ua_test())(ls[k]));
    lemma_first_where_some(ls, ua_test(), 0, k);
}

/// The ranged request keeps every line of the request and adds exactly one:
/// `Range: bytes=start-end`, right after the line that mentions `User-Agent`.
pub proof fn lemma_range_request_lines(target: Seq<char>, start: nat, end: nat)
    requires
        first_where(lines(target), ua_test(), 0) is Some,
    ensures
        lines(with_range_spec(target, start, end)) == lines(target).insert(
            first_where(lines(target), ua_test(), 0).unwrap() + 1,
            range_field(start, end),
        ),
{
    reveal_strlit("Range: bytes=");
    let ls = lines(target);
    let pos = first_where(ls, ua_test(), 0).unwrap();
    lemma_first_where_bounds(ls, ua_test(), 0);
    lemma_lines_no_newline(target);
    lemma_decimal_no_newline(start);
    lemma_decimal_no_newline(end);
    let x = range_field(start, end);
    assert forall|j: int| 0 <= j < x.len() implies x[j] != '\n' by {
        let a = "Range: bytes="@;
        let d1 = decimal(start);
        if j < a.len() {
        } else if j < a.len() + d1.len() {
            assert(x[j] == d1[j - a.len()]);
        } else if j == a.len() + d1.len() {
        } else {
            assert(x[j] == decimal(end)[j - a.len() - d1.len() - 1]);
        }
    }
    assert(range_line(start, end) =~= x + crlf());
    lemma_join_lines(ls, pos, x);
}

/// What `first_where` finds lies among the lines.
pub proof fn lemma_first_where_bounds(ls: Seq<Seq<char>>, test: spec_fn(Seq<char>) -> bool, i: int)
    requires
        0 <= i,
    ensures
        first_where(ls, test, i) matches Some(k) ==> i <= k < ls.len() && test(ls[k]),
    decreases ls.len() - i,
{
    if i < ls.len() && !test(ls[i]) {
        lemma_first_where_bounds(ls, test, i + 1);
    }
}

impl Reqwest {
    /// The request for bytes `start..=end` of the file.
    pub fn range_request(&self, start: usize, end: usize) -> (r: String)
        ensures
            r@ == with_range_spec(
                header_spec(self@.items.0, request_line("GET"@, self@.items.1)),
                start as nat,
                end as nat,
            ),
    {
        let line = request_line_exec("GET", self.url_items.path);
        let h = self.header(line.as_str());
        proof {
            lemma_header_has_user_agent(self@.items.0, line@);
        }
        Self::header_add_range(h, start, end)
    }

    /// The request that asks for the header of the file only.
    pub fn head_request(&self) -> (r: String)
        ensures
            r@ == header_spec(self@.items.0, request_line("HEAD"@, self@.items.1)),
    {
        let line = request_line_exec("HEAD", self.url_items.path);
        self.header(line.as_str())
    }
}


/// What the reading of an answer does next.
#[derive(Debug, Clone, Copy, PartialEq, Eq)]
pub enum Step {
    /// Keep reading.
    Continue,
    /// Keep reading, and report this many more bytes to the progress display.
    Report(usize),
    /// Stop reading.
    Done,
}

/// `"\r\n\r\n"` as bytes: the end of an answer's header.
pub open spec fn header_end() -> Seq<u8> {
    seq![13u8, 10u8, 13u8, 10u8]
}

/// The reading of the answer to a ranged request: the request to send, the
/// bytes read so far, and how often progress is reported.
pub struct Transfer {
    request: String,
    acum: Vec<u8>,
    cont: usize,
    every: usize,
    honors_stop: bool,
}

/// What a `Transfer` holds, as plain values.
pub struct TransferView {
    pub request: Seq<char>,
    pub received: Seq<u8>,
    pub count: nat,
    pub every: nat,
    pub honors_stop: bool,
}

impl View for Transfer {
    type V = TransferView;

    closed spec fn view(&self) -> TransferView {
        TransferView {
            request: self.request@,
            received: self.acum@,
            count: self.cont as nat,
            every: self.every as nat,
            honors_stop: self.honors_stop,
        }
    }
}

impl Transfer {
    /// The count of reads never passes the reporting period.
    #[verifier::type_invariant]
    spec fn counts_in_period(self) -> bool {
        1 <= self.every && self.cont <= self.every
    }

    /// The request text to send.
    pub fn request(&self) -> (r: &str)
        ensures
            r@ == self@.request,
    {
        self.request.as_str()
    }

    /// Takes one read: `data` is what it returned (nothing at the end of the
    /// answer) and `stop` whether the user asked to stop. The end of the
    /// answer, or a stop where stops are honored, ends the reading and keeps
    /// nothing. Otherwise the bytes are kept, and when the count of reads has
    /// reached the reporting period it starts again at 1 and their number is
    /// reported; else the count goes up by one.
    pub fn on_read(&mut self, data: &[u8], stop: bool) -> (r: Step)
        ensures
            final(self)@.request == old(self)@.request,
            final(self)@.every == old(self)@.every,
            final(self)@.honors_stop == old(self)@.honors_stop,
            if data@.len() == 0 || (stop && old(self)@.honors_stop) {
                &&& r == Step::Done
                &&& final(self)@.received == old(self)@.received
                &&& final(self)@.count == old(self)@.count
            } else {
                &&& final(self)@.received == old(self)@.received + data@
                &&& if old(self)@.count == old(self)@.every {
                    r == Step::Report(data@.len() as usize) && final(self)@.count == 1
                } else {
                    r == Step::Continue && final(self)@.count == old(self)@.count + 1
                }
            },
    {
        proof {
            use_type_invariant(&*self);
        }
        if data.len() == 0 || (stop && self.honors_stop) {
            return Step::Done;
        }
        let mut acum: Vec<u8> = Vec::new();
        std::mem::swap(&mut acum, &mut self.acum);
        let ghost start = acum@;
        let mut i: usize = 0;
        while i < data.len()
            invariant
                i <= data.len(),
                acum@ == start + data@.take(i as int),
            decreases data.len() - i,
        {
            acum.push(data[i]);
            assert(data@.take(i + 1) =~= data@.take(i as int).push(data@[i as int]));
            i += 1;
        }
        assert(data@.take(data.len() as int) =~= data@);
        self.acum = acum;
        if self.cont == self.every {
            self.cont = 1;
            Step::Report(data.len())
        } else {
            self.cont = self.cont + 1;
            Step::Continue
        }
    }

    /// Whether the end of the answer's header has been read.
    pub fn has_header_end(&self) -> (r: bool)
        ensures
            r == (find(self@.received, header_end()) is Some),
    {
        find_header_end(&self.acum).is_some()
    }

    /// The body of the answer: what follows the first `"\r\n\r\n"`.
    pub fn body(&self) -> (r: Vec<u8>)
        requires
            find(self@.received, header_end()) is Some,
        ensures
            r@ == self@.received.skip(find(self@.received, header_end()).unwrap() + 4),
    {
        let head = match find_header_end(&self.acum) {
            Some(h) => h,
            None => 0,
        };
        proof {
            lemma_find_from(self.acum@, header_end(), 0);
            assert(occurs_at(self.acum@, header_end(), head as int));
            assert(head + 4 <= self.acum@.len());
        }
        assert(head + 4 <= self.acum.len());
        let mut out: Vec<u8> = Vec::new();
        let mut i: usize = head + 4;
        while i < self.acum.len()
            invariant
                head + 4 <= i <= self.acum.len(),
                out@ == self.acum@.subrange(head + 4, i as int),
            decreases self.acum.len() - i,
        {
            out.push(self.acum[i]);
            assert(self.acum@.subrange(head + 4, i + 1) =~= self.acum@.subrange(head + 4, i as int).push(
                self.acum@[i as int],
            ));
            i += 1;
        }
        assert(self.acum@.subrange(head + 4, self.acum.len() as int) =~= self.acum@.skip(head + 4));
        out
    }
}

/// Position of the first `"\r\n\r\n"` in `bytes`.
fn find_header_end(bytes: &Vec<u8>) -> (r: Option<usize>)
    ensures
        match r {
            Some(k) => find(bytes@, header_end()) == Some(k as int),
            None => find(bytes@, header_end()) is None,
        },
{
    let mut i: usize = 0;
    while i < bytes.len() && bytes.len() - i >= 4
        invariant
            i <= bytes.len(),
            forall|j: int| 0 <= j < i ==> !#[trigger] occurs_at(bytes@, header_end(), j),
        decreases bytes.len() - i,
    {
        if bytes[i] == 13 && bytes[i + 1] == 10 && bytes[i + 2] == 13 && bytes[i + 3] == 10 {
            assert(bytes@.subrange(i as int, i + 4) =~= header_end());
            proof {
                lemma_find_from_is(bytes@, header_end(), 0, Some(i as int));
            }
            return Some(i);
        }
        proof {
            if occurs_at(bytes@, header_end(), i as int) {
                let w = bytes@.subrange(i as int, i + 4);
                assert(w[0] == bytes@[i as int] && w[1] == bytes@[i + 1] && w[2] == bytes@[i + 2]
                    && w[3] == bytes@[i + 3]);
            }
        }
        i += 1;
    }
    proof {
        assert forall|j: int| 0 <= j implies !#[trigger] occurs_at(bytes@, header_end(), j) by {
            if j >= i {
                assert(j + 4 > bytes@.len());
            }
        }
        lemma_find_from_is(bytes@, header_end(), 0, None);
    }
    None
}

impl Reqwest {
    /// Starts the download of bytes `start..=end`: the ranged request to send,
    /// nothing received yet, and progress reported after every read but the
    /// first over TLS (where a stop is honored) or after every fiftieth read
    /// otherwise.
    pub fn bytes(&self, start: usize, end: usize) -> (r: Transfer)
        ensures
            r@.request == with_range_spec(
                header_spec(self@.items.0, request_line("GET"@, self@.items.1)),
                start as nat,
                end as nat,
            ),
            r@.received == Seq::<u8>::empty(),
            r@.count == 0,
            r@.every == (if self@.items.3 {
                1nat
            } else {
                50nat
            }),
            r@.honors_stop == self@.items.3,
    {
        let request = self.range_request(start, end);
        let secure = self.url_items.is_secure;
        Transfer {
            request: request,
            acum: Vec::new(),
            cont: 0,
            every: if secure {
                1
            } else {
                50
            },
            honors_stop: secure,
        }
    }
}


/// The test for a line that mentions `pat`, letters compared without regard to ASCII case.
pub open spec fn ci_test(pat: Seq<char>) -> spec_fn(Seq<char>) -> bool {
    |l: Seq<char>| has_substring_ci(l, pat)
}

/// The test for a line that begins with `pat`, letters compared without regard to ASCII case.
pub open spec fn prefix_ci_test(pat: Seq<char>) -> spec_fn(Seq<char>) -> bool {
    |l: Seq<char>| starts_with_ci(l, pat)
}

/// The first line from `from` on that mentions `pat` (ASCII case ignored).
fn first_line_mentioning(ls: &Vec<&str>, pat: &str, from: usize) -> (r: Option<usize>)
    ensures
        match r {
            Some(k) => first_where(views(ls@), ci_test(pat@), from as int) == Some(k as int),
            None => first_where(views(ls@), ci_test(pat@), from as int) is None,
        },
{
    let ghost lv = views(ls@);
    let mut i: usize = from;
    while i < ls.len()
        invariant
            from <= i,
            views(ls@) == lv,
            forall|j: int| from <= j < i ==> !(ci_test(pat@))(#[trigger] lv[j]),
        decreases ls.len() - i,
    {
        assert(lv[i as int] == ls@[i as int]@);
        if contains_ci(ls[i], pat) {
            proof {
                lemma_first_where_is(lv, ci_test(pat@), from as int, Some(i as int));
            }
            return Some(i);
        }
        i += 1;
    }
    proof {
        lemma_first_where_is(lv, ci_test(pat@), from as int, None);
    }
    None
}

/// The first line from `from` on that begins with `pat` (ASCII case ignored).
fn first_line_starting(ls: &Vec<&str>, pat: &str, from: usize) -> (r: Option<usize>)
    ensures
        match r {
            Some(k) => first_where(views(ls@), prefix_ci_test(pat@), from as int) == Some(k as int),
            None => first_where(views(ls@), prefix_ci_test(pat@), from as int) is None,
        },
{
    let ghost lv = views(ls@);
    let mut i: usize = from;
    while i < ls.len()
        invariant
            from <= i,
            views(ls@) == lv,
            forall|j: int| from <= j < i ==> !(prefix_ci_test(pat@))(#[trigger] lv[j]),
        decreases ls.len() - i,
    {
        assert(lv[i as int] == ls@[i as int]@);
        if starts_with_ci_exec(ls[i], pat) {
            proof {
                lemma_first_where_is(lv, prefix_ci_test(pat@), from as int, Some(i as int));
            }
            return Some(i);
        }
        i += 1;
    }
    proof {
        lemma_first_where_is(lv, prefix_ci_test(pat@), from as int, None);
    }
    None
}

/// The number on a `Content-Length` line: what follows its last `:`,
/// trimmed, read as a `usize`.
pub open spec fn length_in_line(l: Seq<char>) -> Option<usize> {
    parse_usize_spec(trim(after_last(l, ':')))
}

/// The number on a `Content-Length` line.
fn length_in_line_exec(l: &str) -> (r: Option<usize>)
    ensures
        r == length_in_line(l@),
{
    let v = after_last_exec(l, ':');
    let t = trim_str(v);
    parse_usize(t)
}

/// What the answer to a size lookup says.
#[derive(Debug, Clone, Copy, PartialEq, Eq)]
pub enum SizeStatus {
    /// The file has this many bytes.
    Found(usize),
    /// The status is not 200: the lookup failed.
    Failed,
}

/// How the answer to a size lookup over TLS is read. The first line is the
/// status: with `200` the size is on the first later line that mentions
/// `content-length`; with any other status (a moved file's `302` too) the
/// lookup failed.
/// `None` where the answer has no line at all, or a `200` answer has no such
/// line or no number on it.
pub open spec fn size_status_secure(response: Seq<char>) -> Option<SizeStatus> {
    let ls = lines(response);
    if ls.len() == 0 {
        None
    } else if has_substring(ls[0], "200"@) {
        match first_where(ls, ci_test("content-length"@), 1) {
            Some(k) => match length_in_line(ls[k]) {
                Some(n) => Some(SizeStatus::Found(n)),
                None => None,
            },
            None => None,
        }
    } else {
        Some(SizeStatus::Failed)
    }
}

/// How the answer to a plain size lookup is read: the size is on the first
/// line that mentions `content-length`, whatever the status. `None` where
/// there is no such line or no number on it.
pub open spec fn size_plain(response: Seq<char>) -> Option<usize> {
    let ls = lines(response);
    match first_where(ls, ci_test("content-length"@), 0) {
        Some(k) => length_in_line(ls[k]),
        None => None,
    }
}

impl Reqwest {
    /// Reads the answer to a size lookup over TLS. `None` is an answer the
    /// downloader cannot go on from.
    pub fn get_size_status_s(response: &str) -> (r: Option<SizeStatus>)
        ensures
            r == size_status_secure(response@),
    {
        let ls = lines_of(response);
        let ghost lv = views(ls@);
        if ls.len() == 0 {
            return None;
        }
        let status = ls[0];
        assert(status@ == lv[0]);
        if contains_str(status, "200") {
            match first_line_mentioning(&ls, "content-length", 1) {
                Some(k) => {
                    proof {
                        lemma_first_where_bounds(lv, ci_test("content-length"@), 1);
                    }
                    assert(k < ls.len());
                    assert(ls@[k as int]@ == lv[k as int]);
                    match length_in_line_exec(ls[k]) {
                        Some(n) => Some(SizeStatus::Found(n)),
                        None => None,
                    }
                },
                None => None,
            }
        } else {
            Some(SizeStatus::Failed)
        }
    }

    /// Reads the answer to a plain size lookup. `None` is an answer the
    /// downloader cannot go on from.
    pub fn get_size_status_u(response: &str) -> (r: Option<usize>)
        ensures
            r == size_plain(response@),
    {
        let ls = lines_of(response);
        let ghost lv = views(ls@);
        match first_line_mentioning(&ls, "content-length", 0) {
            Some(k) => {
                proof {
                    lemma_first_where_bounds(lv, ci_test("content-length"@), 0);
                }
                assert(k < ls.len());
                assert(ls@[k as int]@ == lv[k as int]);
                length_in_line_exec(ls[k])
            },
            None => None,
        }
    }
}


/// The answer says the file has moved: its first line mentions `302`.
pub open spec fn is_redirect(response: Seq<char>) -> bool {
    lines(response).len() > 0 && has_substring(lines(response)[0], "302"@)
}

/// Where a moved file went: on the first line after the status that begins
/// with `location:` (ASCII case ignored), what follows its first `:`, trimmed.
pub open spec fn location_url(response: Seq<char>) -> Option<Seq<char>> {
    let ls = lines(response);
    match first_where(ls, prefix_ci_test("location:"@), 1) {
        Some(k) => match split_once_spec(ls[k], ":"@) {
            Some((_, after)) => Some(trim(after)),
            None => None,
        },
        None => None,
    }
}

impl Reqwest {
    /// Where the download really comes from, after the answer to a first
    /// lookup: a moved file (`302`) comes from the address in its
    /// `Location` line, any other answer leaves the address as it is. `None`
    /// is an answer the downloader cannot go on from: no line at all, or a
    /// move without a usable new address.
    pub fn redirect_target(&self, response: &'static str) -> (r: Option<UrlItems>)
        ensures
            lines(response@).len() == 0 ==> r is None,
            lines(response@).len() > 0 && !is_redirect(response@) ==> (r matches Some(u)
                && items_view(u) == self@.items),
            is_redirect(response@) ==> match location_url(response@) {
                Some(u) => if url_is_valid(u) {
                    (r matches Some(v) && items_view(v) == url_parts(u))
                } else {
                    r is None
                },
                None => r is None,
            },
    {
        let ls = lines_of(response);
        let ghost lv = views(ls@);
        if ls.len() == 0 {
            return None;
        }
        let status = ls[0];
        assert(status@ == lv[0]);
        if !contains_str(status, "302") {
            return Some(self.url_items);
        }
        match first_line_starting(&ls, "location:", 1) {
            Some(k) => {
                proof {
                    lemma_first_where_bounds(lv, prefix_ci_test("location:"@), 1);
                }
                assert(k < ls.len());
                let line = ls[k];
                assert(line@ == lv[k as int]);
                match split_once(line, ":") {
                    Some((_, after)) => {
                        let url = trim_str(after);
                        if url_is_supported(url) {
                            url.split_url()
                        } else {
                            None
                        }
                    },
                    None => None,
                }
            },
            None => None,
        }
    }
}


/// How the size is read from a `200` answer over TLS: the size is the number
/// after the last `:` of the first line after the status that mentions
/// `content-length` in any ASCII case (`Content-Length`, `CONTENT-LENGTH`,
/// ...), read with surrounding whitespace ignored.
pub proof fn law_size_from_content_length(response: Seq<char>, k: int, n: usize)
    requires
        lines(response).len() > 0,
        has_substring(lines(response)[0], "200"@),
        1 <= k < lines(response).len(),
        has_substring_ci(lines(response)[k], "content-length"@),
        forall|j: int| 1 <= j < k ==> !has_substring_ci(#[trigger] lines(response)[j], "content-length"@),
        parse_usize_spec(trim(after_last(lines(response)[k], ':'))) == Some(n),
    ensures
        size_status_secure(response) == Some(SizeStatus::Found(n)),
        size_plain(response) == (if has_substring_ci(lines(response)[0], "content-length"@) {
            length_in_line(lines(response)[0])
        } else {
            Some(n)
        }),
{
    let ls = lines(response);
    lemma_first_where_is(ls, ci_test("content-length"@), 1, Some(k));
    if has_substring_ci(ls[0], "content-length"@) {
        lemma_first_where_is(ls, ci_test("content-length"@), 0, Some(0));
    } else {
        lemma_first_where_is(ls, ci_test("content-length"@), 0, Some(k));
    }
}

/// Any answer over TLS whose status line does not mention `200` (a `302`
/// too) is a failed lookup.
pub proof fn law_size_not_ok(response: Seq<char>)
    requires
        lines(response).len() > 0,
        !has_substring(lines(response)[0], "200"@),
    ensures
        size_status_secure(response) == Some(SizeStatus::Failed),
{
}

/// Where a moved file went: on the first line after the status that begins
/// with `location:` in any ASCII case (`Location:`, `LOCATION:`, ...), the
/// rest of the line after those nine characters, trimmed.
pub proof fn law_location(response: Seq<char>, k: int)
    requires
        1 <= k < lines(response).len(),
        starts_with_ci(lines(response)[k], "location:"@),
        forall|j: int| 1 <= j < k ==> !starts_with_ci(#[trigger] lines(response)[j], "location:"@),
    ensures
        location_url(response) == Some(trim(lines(response)[k].skip(9))),
{
    reveal_strlit("location:");
    reveal_strlit(":");
    let ls = lines(response);
    let l = ls[k];
    let pat = "location:"@;
    lemma_first_where_is(ls, prefix_ci_test(pat), 1, Some(k));
    assert(lower_seq(pat) =~= pat);
    assert forall|j: int| 0 <= j < 9 implies lower(l[j]) == pat[j] by {
        assert(lower_seq(l)[j] == lower(l[j]));
        assert(lower_seq(l).subrange(0, 9)[j] == lower_seq(l)[j]);
    }
    let head = l.take(8);
    assert forall|j: int| 0 <= j < head.len() implies head[j] != ':' by {
        assert(lower(l[j]) == pat[j]);
    }
    assert(pat[8] == ':');
    assert(lower(l[8]) == pat[8]);
    assert(l[8] == ':');
    assert(l =~= head + seq![':'] + l.skip(9));
    lemma_split_once_char(head, ':', l.skip(9));
    assert(":"@ =~= seq![':']);
}

} // verus!
