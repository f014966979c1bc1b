//! Address parsing and the small path rules of the downloader.
use vstd::prelude::*;
use vstd::string::*;

use crate::structs::UrlItems;
use crate::text::{
    find, lemma_find_char_none, lemma_find_char_some, lemma_split_once_at, lemma_split_once_char,
    occurs_at, chars_of, contains_ci, contains_str, has_substring, has_substring_ci, split_once,
    split_once_spec, str_eq,
};

verus! {

/// `"//"`
pub open spec fn double_slash() -> Seq<char> {
    seq!['/', '/']
}

/// `"/"`
pub open spec fn slash() -> Seq<char> {
    seq!['/']
}

/// `":"`
pub open spec fn colon() -> Seq<char> {
    seq![':']
}

/// What `get_slice` gives: after the first `start`, the text up to the next
/// `end` and the text after that `end`.
pub open spec fn get_slice_spec(s: Seq<char>, start: Seq<char>, end: Seq<char>) -> Option<(Seq<char>, Seq<char>)> {
    match split_once_spec(s, start) {
        Some((_, next)) => split_once_spec(next, end),
        None => None,
    }
}

/// The protocol an address names, checked in this order and without regard
/// to ASCII case: 0 for `https`, 1 for `http`, 2 for `ftp`, 3 for none.
pub open spec fn protocol_of(s: Seq<char>) -> int {
    if has_substring_ci(s, seq!['h', 't', 't', 'p', 's']) {
        0
    } else if has_substring_ci(s, seq!['h', 't', 't', 'p']) {
        1
    } else if has_substring_ci(s, seq!['f', 't', 'p']) {
        2
    } else {
        3
    }
}

/// An address that `split_url` takes apart: it names a protocol, and a `/`
/// follows the first `//`.
pub open spec fn url_is_valid(s: Seq<char>) -> bool {
    protocol_of(s) < 3 && get_slice_spec(s, double_slash(), slash()) is Some
}

/// Host, path, port and security of a valid address: the host runs from the
/// first `//` to the next `/`; for `http` a `:` in the host separates the
/// port; otherwise the port is the protocol's default (443, 80 or 21).
pub open spec fn url_parts(s: Seq<char>) -> (Seq<char>, Seq<char>, Seq<char>, bool) {
    let (dns, path) = get_slice_spec(s, double_slash(), slash()).unwrap();
    if protocol_of(s) == 0 {
        (dns, path, seq!['4', '4', '3'], true)
    } else if protocol_of(s) == 1 {
        if has_substring(dns, colon()) {
            let (host, port) = split_once_spec(dns, colon()).unwrap();
            (host, path, port, false)
        } else {
            (dns, path, seq!['8', '0'], false)
        }
    } else {
        (dns, path, seq!['2', '1'], false)
    }
}

/// The view of a `UrlItems` as plain texts.
pub open spec fn items_view(u: UrlItems) -> (Seq<char>, Seq<char>, Seq<char>, bool) {
    (u.dns@, u.path@, u.port@, u.is_secure)
}

/// Text helpers on string slices.
pub trait LocalFunctions {
    /// The characters of the text.
    spec fn text(&self) -> Seq<char>;

    /// After the first `start`, the text up to the next `end` and the text after that `end`.
    fn get_slice<'a>(&'a self, start: &'a str, end: &'a str) -> (r: Option<(&'a str, &'a str)>)
        ensures
            match r {
                Some((a, b)) => get_slice_spec(self.text(), start@, end@) == Some((a@, b@)),
                None => get_slice_spec(self.text(), start@, end@) is None,
            },
    ;

    /// Takes a download address apart into host, path, port and security.
    fn split_url(&'static self) -> (r: Option<UrlItems>)
        requires
            url_is_valid(self.text()),
        ensures
            r matches Some(u) && items_view(u) == url_parts(self.text()),
    ;
}

impl LocalFunctions for str {
    open spec fn text(&self) -> Seq<char> {
        self@
    }

    fn get_slice<'a>(&'a self, start: &'a str, end: &'a str) -> (r: Option<(&'a str, &'a str)>) {
        if let Some((_, next)) = split_once(self, start) {
            return split_once(next, end);
        }
        None
    }

    fn split_url(&'static self) -> (r: Option<UrlItems>) {
        let dslash = "//";
        let sl = "/";
        let col = ":";
        proof {
            reveal_strlit("//");
            reveal_strlit("/");
            reveal_strlit(":");
            reveal_strlit("https");
            reveal_strlit("http");
            reveal_strlit("ftp");
            reveal_strlit("443");
            reveal_strlit("80");
            reveal_strlit("21");
            assert(dslash@ =~= double_slash());
            assert(sl@ =~= slash());
            assert(col@ =~= colon());
        }
        let (dns, path) = match self.get_slice(dslash, sl) {
            Some(p) => p,
            None => {
                return None;
            },
        };
        if contains_ci(self, "https") {
            proof {
                assert("https"@ =~= seq!['h', 't', 't', 'p', 's']);
                assert("443"@ =~= seq!['4', '4', '3']);
            }
            Some(UrlItems { dns: dns, path: path, port: "443", is_secure: true })
        } else if contains_ci(self, "http") {
            proof {
                assert("https"@ =~= seq!['h', 't', 't', 'p', 's']);
                assert("http"@ =~= seq!['h', 't', 't', 'p']);
            }
            if contains_str(dns, col) {
                match split_once(dns, col) {
                    Some((host, port)) => Some(UrlItems { dns: host, path: path, port: port, is_secure: false }),
                    None => None,
                }
            } else {
                proof {
                    assert("80"@ =~= seq!['8', '0']);
                }
                Some(UrlItems { dns: dns, path: path, port: "80", is_secure: false })
            }
        } else {
            proof {
                assert("https"@ =~= seq!['h', 't', 't', 'p', 's']);
                assert("http"@ =~= seq!['h', 't', 't', 'p']);
                assert("ftp"@ =~= seq!['f', 't', 'p']);
                assert("21"@ =~= seq!['2', '1']);
            }
            Some(UrlItems { dns: dns, path: path, port: "21", is_secure: false })
        }
    }
}

/// How an address comes apart. Write the address as `p + "//" + host +
/// "/" + path`, where `p` holds no `//` (not even one that reaches into the
/// `//` after it) and `host` holds no `/`. If the address names a protocol
/// (`https`, `http` or `ftp`, in any ASCII case), `split_url` takes it:
/// the host is exactly `host` and the path exactly `path`, whatever other
/// characters (such as `%` escapes) they hold. With `https` anywhere the port
/// is 443 over TLS; else with `http` and no `:` in the host the port is 80;
/// else (`ftp`) the port is 21; only `https` is secure.
pub proof fn law_split_url(s: Seq<char>, p: Seq<char>, host: Seq<char>, path: Seq<char>)
    requires
        s == p + double_slash() + host + slash() + path,
        forall|j: int| 0 <= j < p.len() ==> !#[trigger] occurs_at(s, double_slash(), j),
        forall|j: int| 0 <= j < host.len() ==> host[j] != '/',
        has_substring_ci(s, seq!['h', 't', 't', 'p', 's']) || has_substring_ci(s, seq!['h', 't', 't', 'p'])
            || has_substring_ci(s, seq!['f', 't', 'p']),
    ensures
        url_is_valid(s),
        get_slice_spec(s, double_slash(), slash()) == Some((host, path)),
        url_parts(s).1 == path,
        url_parts(s).3 == has_substring_ci(s, seq!['h', 't', 't', 'p', 's']),
        has_substring_ci(s, seq!['h', 't', 't', 'p', 's']) ==> url_parts(s) == (host, path, seq!['4', '4', '3'], true),
        !has_substring_ci(s, seq!['h', 't', 't', 'p', 's']) && has_substring_ci(s, seq!['h', 't', 't', 'p'])
            && (forall|j: int| 0 <= j < host.len() ==> host[j] != ':') ==> url_parts(s) == (
            host,
            path,
            seq!['8', '0'],
            false,
        ),
        !has_substring_ci(s, seq!['h', 't', 't', 'p', 's']) && !has_substring_ci(s, seq!['h', 't', 't', 'p'])
            ==> url_parts(s) == (host, path, seq!['2', '1'], false),
{
    let rest = host + slash() + path;
    assert(s =~= p + double_slash() + rest);
    lemma_split_once_at(s, p, double_slash(), rest);
    lemma_split_once_char(host, '/', path);
    assert(get_slice_spec(s, double_slash(), slash()) == Some((host, path)));
    if forall|j: int| 0 <= j < host.len() ==> host[j] != ':' {
        lemma_find_char_none(host, ':');
    }
}

/// How an `http` address with a port comes apart: written as `p + "//" +
/// host + ":" + port + "/" + path` (no `//` in `p`, no `/` in host or port,
/// no `:` in host), an address that names `http` but not `https` gives host
/// `host`, port `port`, path `path`, and no TLS.
pub proof fn law_split_url_port(s: Seq<char>, p: Seq<char>, host: Seq<char>, port: Seq<char>, path: Seq<char>)
    requires
        s == p + double_slash() + host + colon() + port + slash() + path,
        forall|j: int| 0 <= j < p.len() ==> !#[trigger] occurs_at(s, double_slash(), j),
        forall|j: int| 0 <= j < host.len() ==> host[j] != '/' && host[j] != ':',
        forall|j: int| 0 <= j < port.len() ==> port[j] != '/',
        !has_substring_ci(s, seq!['h', 't', 't', 'p', 's']),
        has_substring_ci(s, seq!['h', 't', 't', 'p']),
    ensures
        url_is_valid(s),
        url_parts(s) == (host, path, port, false),
{
    let dns = host + colon() + port;
    assert(s =~= p + double_slash() + dns + slash() + path);
    assert forall|j: int| 0 <= j < dns.len() implies dns[j] != '/' by {
        if j < host.len() {
        } else if j > host.len() {
            assert(dns[j] == port[j - host.len() - 1]);
        }
    }
    law_split_url(s, p, dns, path);
    lemma_split_once_char(host, ':', port);
    lemma_find_char_some(dns, ':', host.len() as int);
    assert(protocol_of(s) == 1);
    assert(has_substring(dns, colon()));
    assert(split_once_spec(dns, colon()) == Some((host, port)));
}

/// Whether `split_url` takes `url` apart, so that calling it is in order.
pub fn url_is_supported(url: &str) -> (r: bool)
    ensures
        r == url_is_valid(url@),
{
    proof {
        reveal_strlit("//");
        reveal_strlit("/");
        reveal_strlit("https");
        reveal_strlit("http");
        reveal_strlit("ftp");
        assert("//"@ =~= double_slash());
        assert("/"@ =~= slash());
        assert("https"@ =~= seq!['h', 't', 't', 'p', 's']);
        assert("http"@ =~= seq!['h', 't', 't', 'p']);
        assert("ftp"@ =~= seq!['f', 't', 'p']);
    }
    let has_protocol = contains_ci(url, "https") || contains_ci(url, "http") || contains_ci(url, "ftp");
    has_protocol && url.get_slice("//", "/").is_some()
}


/// The environment variable that names the home folder: `HOME`.
pub open spec fn is_home_var(name: Seq<char>) -> bool {
    name == "HOME"@
}

/// The `Downloads` folder of the home folder: the value of the first
/// variable (in the given order) named `HOME`, followed by `/Downloads`;
/// `None` when no variable has that name.
pub fn download_folder_from(vars: &Vec<(String, String)>) -> (r: Option<String>)
    ensures
        match r {
            Some(p) => exists|j: int|
                0 <= j < vars@.len() && is_home_var(#[trigger] vars@[j].0@) && (forall|k: int|
                    0 <= k < j ==> !is_home_var(#[trigger] vars@[k].0@)) && p@ == vars@[j].1@
                    + "/Downloads"@,
            None => forall|k: int| 0 <= k < vars@.len() ==> !is_home_var(#[trigger] vars@[k].0@),
        },
{
    let mut i: usize = 0;
    while i < vars.len()
        invariant
            i <= vars.len(),
            forall|k: int| 0 <= k < i ==> !is_home_var(#[trigger] vars@[k].0@),
        decreases vars.len() - i,
    {
        if str_eq(vars[i].0.as_str(), "HOME") {
            let mut p = String::from_str(vars[i].1.as_str());
            p.append("/Downloads");
            assert(is_home_var(vars@[i as int].0@));
            return Some(p);
        }
        i += 1;
    }
    None
}

/// The folder for downloaded pieces inside the system's temporary folder `tmp`.
pub fn temp_folder_in(tmp: &str) -> (r: String)
    ensures
        r@ == tmp@ + "/temp_folder"@,
{
    let mut r = String::from_str(tmp);
    r.append("/temp_folder");
    r
}

/// Where the assembled file is written: `name` inside `folder`.
pub fn saved_path(folder: &str, name: &str) -> (r: String)
    ensures
        r@ == folder@ + "/"@ + name@,
{
    let mut r = String::from_str(folder);
    r.append("/");
    r.append(name);
    r
}

/// Strict order of texts by character codes, as `String` orders them: the
/// first differing character decides, and a proper prefix comes first.
pub open spec fn text_lt(a: Seq<char>, b: Seq<char>) -> bool
    decreases a.len(),
{
    if a.len() == 0 {
        b.len() > 0
    } else if b.len() == 0 {
        false
    } else if a[0] != b[0] {
        (a[0] as u32) < (b[0] as u32)
    } else {
        text_lt(a.drop_first(), b.drop_first())
    }
}

/// The texts are in non-decreasing order.
pub open spec fn texts_sorted(v: Seq<String>) -> bool {
    forall|i: int, j: int| 0 <= i < j < v.len() ==> !text_lt(#[trigger] v[j]@, #[trigger] v[i]@)
}

/// The order of texts is transitive.
pub proof fn lemma_text_lt_transitive(a: Seq<char>, b: Seq<char>, c: Seq<char>)
    requires
        text_lt(a, b),
        text_lt(b, c),
    ensures
        text_lt(a, c),
    decreases a.len(),
{
    if a.len() > 0 && b.len() > 0 && c.len() > 0 && a[0] == b[0] && b[0] == c[0] {
        lemma_text_lt_transitive(a.drop_first(), b.drop_first(), c.drop_first());
    }
}

/// The order of texts is irreflexive.
pub proof fn lemma_text_lt_irreflexive(a: Seq<char>)
    ensures
        !text_lt(a, a),
    decreases a.len(),
{
    if a.len() > 0 {
        lemma_text_lt_irreflexive(a.drop_first());
    }
}

/// Whether `a` comes strictly before `b`.
pub fn text_less(a: &str, b: &str) -> (r: bool)
    ensures
        r == text_lt(a@, b@),
{
    let x = chars_of(a);
    let y = chars_of(b);
    let mut i: usize = 0;
    proof {
        assert(x@.skip(0) =~= x@);
        assert(y@.skip(0) =~= y@);
    }
    while i < x.len() && i < y.len() && x[i] == y[i]
        invariant
            i <= x.len(),
            i <= y.len(),
            text_lt(x@, y@) == text_lt(x@.skip(i as int), y@.skip(i as int)),
        decreases x.len() - i,
    {
        assert(x@.skip(i as int).drop_first() =~= x@.skip(i + 1));
        assert(y@.skip(i as int).drop_first() =~= y@.skip(i + 1));
        i += 1;
    }
    if i == x.len() {
        i < y.len()
    } else if i == y.len() {
        false
    } else {
        (x[i] as u32) < (y[i] as u32)
    }
}

/// Inserting into a sequence adds one copy of the element to its multiset.
proof fn lemma_insert_multiset(s: Seq<String>, p: int, x: String)
    requires
        0 <= p <= s.len(),
    ensures
        s.insert(p, x).to_multiset() =~= s.to_multiset().insert(x),
{
    broadcast use vstd::seq_lib::group_to_multiset_ensures;

    let t = s.insert(p, x);
    assert(t.remove(p) =~= s);
    assert(t[p] == x);
    assert(t.remove(p).to_multiset() =~= t.to_multiset().remove(x));
    assert(t.to_multiset().count(x) > 0) by {
        assert(t.contains(x));
    }
}

/// The names of the downloaded pieces in the order in which they are joined:
/// sorted by character codes, which is the order in which `String`s sort
/// (their UTF-8 bytes compare in the same order as their characters).
pub fn chunk_order(names: Vec<String>) -> (r: Vec<String>)
    ensures
        r@.to_multiset() == names@.to_multiset(),
        texts_sorted(r@),
{
    broadcast use vstd::seq_lib::group_to_multiset_ensures;

    let mut out: Vec<String> = Vec::new();
    let mut i: usize = 0;
    while i < names.len()
        invariant
            i <= names.len(),
            out@.to_multiset() == names@.take(i as int).to_multiset(),
            texts_sorted(out@),
        decreases names.len() - i,
    {
        let x = names[i].clone();
        let mut p: usize = 0;
        while p < out.len() && !text_less(x.as_str(), out[p].as_str())
            invariant
                p <= out.len(),
                forall|k: int| 0 <= k < p ==> !text_lt(x@, #[trigger] out@[k]@),
            decreases out.len() - p,
        {
            p += 1;
        }
        let ghost before = out@;
        out.insert(p, x);
        proof {
            lemma_insert_multiset(before, p as int, x);
            assert(x == names@[i as int]);
            assert(names@.take(i + 1) =~= names@.take(i as int).push(names@[i as int]));
            vstd::seq_lib::to_multiset_build(names@.take(i as int), x);
            assert forall|a: int, b: int| 0 <= a < b < out@.len() implies !text_lt(
                #[trigger] out@[b]@,
                #[trigger] out@[a]@,
            ) by {
                if b < p {
                    assert(out@[a] == before[a] && out@[b] == before[b]);
                } else if b == p {
                    assert(out@[a] == before[a]);
                } else if a == p {
                    assert(out@[b] == before[b - 1]);
                    if p < before.len() && text_lt(before[b - 1]@, x@) {
                        assert(text_lt(x@, before[p as int]@));
                        if b - 1 > p {
                            assert(!text_lt(before[b - 1]@, before[p as int]@));
                        } else {
                            lemma_text_lt_irreflexive(before[p as int]@);
                        }
                        lemma_text_lt_transitive(before[b - 1]@, x@, before[p as int]@);
                    }
                } else if a < p {
                    assert(out@[a] == before[a] && out@[b] == before[b - 1]);
                } else {
                    assert(out@[a] == before[a - 1] && out@[b] == before[b - 1]);
                }
            }
        }
        i += 1;
    }
    assert(names@.take(names.len() as int) =~= names@);
    out
}


/// What became of one piece while the pieces are joined.
#[derive(Debug, Clone, Copy, PartialEq, Eq)]
pub enum PieceJoin {
    /// The piece could not be opened or read; it is skipped.
    Unreadable,
    /// The piece was appended to the joined file.
    Written,
    /// Appending the piece failed; joining stops.
    WriteFailed,
}

/// The joining of the pieces into the file at `save_at`.
pub struct Joiner {
    save_at: String,
    failed: bool,
}

/// What a `Joiner` holds, as plain values.
pub struct JoinerView {
    pub save_at: Seq<char>,
    pub failed: bool,
}

impl View for Joiner {
    type V = JoinerView;

    closed spec fn view(&self) -> JoinerView {
        JoinerView { save_at: self.save_at@, failed: self.failed }
    }
}

impl Joiner {
    /// Starts joining into `save_at`, with no failure yet.
    pub fn new(save_at: String) -> (r: Joiner)
        ensures
            r@.save_at == save_at@,
            !r@.failed,
    {
        Joiner { save_at: save_at, failed: false }
    }

    /// Takes what became of the next piece; says whether to go on with the
    /// pieces after it. Only a failed write stops the joining and marks it
    /// failed; an unreadable piece is skipped.
    pub fn on_piece(&mut self, piece: PieceJoin) -> (go_on: bool)
        ensures
            go_on == !(piece is WriteFailed),
            final(self)@.save_at == old(self)@.save_at,
            final(self)@.failed == (old(self)@.failed || piece is WriteFailed),
    {
        match piece {
            PieceJoin::WriteFailed => {
                self.failed = true;
                false
            },
            _ => true,
        }
    }

    /// Where the joined file was saved, or `None` when a write failed.
    pub fn finish(self) -> (r: Option<String>)
        ensures
            match r {
                Some(p) => !self@.failed && p@ == self@.save_at,
                None => self@.failed,
            },
    {
        if self.failed {
            None
        } else {
            Some(self.save_at)
        }
    }
}

} // verus!
