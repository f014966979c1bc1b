//! Links of a directory listing page.
use vstd::prelude::*;

use crate::functions::{get_slice_spec, LocalFunctions};
use crate::reqwest::{build_header, header_spec, request_line, request_line_exec};
use crate::text::{
    contains_str, find, find_chars, has_substring, lemma_find_from, lemma_find_skip, lines,
    lines_of, slice_chars, split_once, split_once_spec, views, chars_of,
};

verus! {

/// `str::split` with a non-empty pattern: the pieces between successive
/// occurrences of `pat`, from left to right, without overlap.
pub open spec fn split_all(s: Seq<char>, pat: Seq<char>) -> Seq<Seq<char>>
    decreases s.len(),
{
    if pat.len() == 0 {
        seq![s]
    } else {
        match find(s, pat) {
            Some(i) => {
                proof {
                    lemma_find_from(s, pat, 0);
                }
                seq![s.take(i)] + split_all(s.skip(i + pat.len()), pat)
            },
            None => seq![s],
        }
    }
}

/// `"href"`
pub open spec fn href() -> Seq<char> {
    seq!['h', 'r', 'e', 'f']
}

/// `"\""`
pub open spec fn quote() -> Seq<char> {
    seq!['"']
}

/// The link in a piece: the text between its first two quotes.
pub open spec fn link_of(piece: Seq<char>) -> Seq<char> {
    get_slice_spec(piece, quote(), quote()).unwrap().0
}

/// The links of the pieces that mention `target`, in order.
pub open spec fn links_spec(pieces: Seq<Seq<char>>, target: Seq<char>) -> Seq<Seq<char>>
    decreases pieces.len(),
{
    if pieces.len() == 0 {
        seq![]
    } else {
        links_spec(pieces.drop_last(), target) + (if has_substring(pieces.last(), target) {
            seq![link_of(pieces.last())]
        } else {
            seq![]
        })
    }
}

/// Every piece that mentions `target` holds a quoted link.
pub open spec fn links_defined(pieces: Seq<Seq<char>>, target: Seq<char>) -> bool {
    forall|i: int|
        0 <= i < pieces.len() && has_substring(#[trigger] pieces[i], target) ==> get_slice_spec(
            pieces[i],
            quote(),
            quote(),
        ) is Some
}

/// `str::split` with a non-empty pattern, collected.
pub fn split_on<'a>(s: &'a str, pat: &str) -> (r: Vec<&'a str>)
    requires
        pat@.len() > 0,
    ensures
        views(r@) == split_all(s@, pat@),
{
    let cs = chars_of(s);
    let ps = chars_of(pat);
    let mut out: Vec<&'a str> = Vec::new();
    let mut start: usize = 0;
    proof {
        assert(cs@.skip(0) =~= cs@);
        assert(views(out@) + split_all(cs@.skip(0), ps@) =~= split_all(cs@, ps@));
    }
    loop
        invariant
            start <= cs.len(),
            cs@ == s@,
            ps@ == pat@,
            ps@.len() > 0,
            views(out@) + split_all(cs@.skip(start as int), ps@) == split_all(cs@, ps@),
        decreases cs.len() - start,
    {
        let ghost rest = cs@.skip(start as int);
        let ghost before = out@;
        proof {
            lemma_find_skip(cs@, ps@, start as int);
        }
        match find_chars(&cs, &ps, start) {
            Some(i) => {
                proof {
                    lemma_find_from(cs@, ps@, start as int);
                }
                let n = ps.len();
                assert(i + n <= cs.len());
                let k = i - start;
                let piece = slice_chars(s, start, i);
                assert(piece@ =~= rest.take(k as int));
                assert(rest.skip(k + n) =~= cs@.skip(i + n));
                assert(split_all(rest, ps@) == seq![piece@] + split_all(rest.skip(k + n), ps@));
                out.push(piece);
                proof {
                    assert(views(out@) =~= views(before).push(piece@));
                    assert(views(out@) + split_all(cs@.skip(i + n), ps@) =~= views(before) + (seq![piece@]
                        + split_all(rest.skip(k + n), ps@)));
                }
                start = i + n;
            },
            None => {
                let piece = slice_chars(s, start, cs.len());
                assert(piece@ =~= rest);
                assert(split_all(rest, ps@) == seq![piece@]);
                out.push(piece);
                proof {
                    assert(views(out@) =~= views(before).push(piece@));
                    assert(views(out@) =~= views(before) + split_all(rest, ps@));
                }
                return out;
            },
        }
    }
}

/// Reading the links of a directory listing page.
pub struct SiteUrls;

impl SiteUrls {
    /// The links of the page `source` whose `href` piece mentions `target`:
    /// the page is cut at every `href`, and of each piece that mentions
    /// `target` the text between its first two quotes is kept; `None` when
    /// no piece mentions it.
    pub fn filter_links<'a>(source: &'a str, target: &str) -> (r: Option<Vec<&'a str>>)
        requires
            links_defined(split_all(source@, href()), target@),
        ensures
            match r {
                Some(v) => views(v@) == links_spec(split_all(source@, href()), target@) && v@.len() > 0,
                None => links_spec(split_all(source@, href()), target@).len() == 0,
            },
    {
        let h = "href";
        proof {
            reveal_strlit("href");
            assert(h@ =~= href());
        }
        let pieces = split_on(source, h);
        let ghost pv = views(pieces@);
        let q = "\"";
        proof {
            reveal_strlit("\"");
            assert(q@ =~= quote());
        }
        let mut lst: Vec<&'a str> = Vec::new();
        let mut i: usize = 0;
        while i < pieces.len()
            invariant
                i <= pieces.len(),
                pv == views(pieces@),
                pv == split_all(source@, href()),
                q@ == quote(),
                links_defined(pv, target@),
                views(lst@) == links_spec(pv.take(i as int), target@),
            decreases pieces.len() - i,
        {
            let piece = pieces[i];
            assert(piece@ == pv[i as int]);
            let ghost before = lst@;
            assert(pv.take(i + 1).drop_last() =~= pv.take(i as int));
            if contains_str(piece, target) {
                match piece.get_slice(q, q) {
                    Some((link, _)) => {
                        lst.push(link);
                        assert(views(lst@) =~= views(before).push(link@));
                    },
                    None => {},
                }
            }
            i += 1;
        }
        assert(pv.take(pieces.len() as int) =~= pv);
        if lst.len() > 0 {
            Some(lst)
        } else {
            None
        }
    }

    /// Whether every piece of `source` that mentions `target` holds a quoted
    /// link, so that `filter_links` may be called.
    pub fn links_are_quoted(source: &str, target: &str) -> (r: bool)
        ensures
            r == links_defined(split_all(source@, href()), target@),
    {
        let h = "href";
        proof {
            reveal_strlit("href");
            assert(h@ =~= href());
        }
        let pieces = split_on(source, h);
        let ghost pv = views(pieces@);
        let q = "\"";
        proof {
            reveal_strlit("\"");
            assert(q@ =~= quote());
        }
        let mut i: usize = 0;
        while i < pieces.len()
            invariant
                i <= pieces.len(),
                pv == views(pieces@),
                pv == split_all(source@, href()),
                q@ == quote(),
                forall|j: int|
                    0 <= j < i && has_substring(#[trigger] pv[j], target@) ==> get_slice_spec(
                        pv[j],
                        quote(),
                        quote(),
                    ) is Some,
            decreases pieces.len() - i,
        {
            let piece = pieces[i];
            assert(piece@ == pv[i as int]);
            if contains_str(piece, target) && piece.get_slice(q, q).is_none() {
                assert(has_substring(pv[i as int], target@) && get_slice_spec(pv[i as int], quote(), quote()) is None);
                return false;
            }
            i += 1;
        }
        true
    }

    /// The request for page `path` of host `dns`.
    pub fn page_request(dns: &str, path: &str) -> (r: String)
        ensures
            r@ == header_spec(dns@, request_line("GET"@, path@)),
    {
        let line = request_line_exec("GET", path);
        build_header(dns, line.as_str())
    }

    /// Cuts the answer to a page request at the end of its header. With a
    /// status line that mentions `200`, the header and the page; otherwise
    /// the status line. `None` when the answer has no `"\r\n\r\n"` or its
    /// header has no line.
    pub fn page_parts<'a>(data: &'a str) -> (r: Option<Result<(&'a str, &'a str), &'a str>>)
        ensures
            match split_once_spec(data@, seq!['\r', '\n', '\r', '\n']) {
                Some((header, source)) => if lines(header).len() == 0 {
                    r is None
                } else if has_substring(lines(header)[0], seq!['2', '0', '0']) {
                    (r matches Some(Ok((h, s))) && h@ == header && s@ == source)
                } else {
                    (r matches Some(Err(st)) && st@ == lines(header)[0])
                },
                None => r is None,
            },
    {
        let sep = "\r\n\r\n";
        let ok = "200";
        proof {
            reveal_strlit("\r\n\r\n");
            reveal_strlit("200");
            assert(sep@ =~= seq!['\r', '\n', '\r', '\n']);
            assert(ok@ =~= seq!['2', '0', '0']);
        }
        match split_once(data, sep) {
            Some((header, source)) => {
                let ls = lines_of(header);
                if ls.len() == 0 {
                    return None;
                }
                let status = ls[0];
                assert(status@ == views(ls@)[0]);
                if contains_str(status, ok) {
                    Some(Ok((header, source)))
                } else {
                    Some(Err(status))
                }
            },
            None => None,
        }
    }
}


/// The links are, in order, the quoted texts of the pieces that mention the
/// target, every one of them and nothing else: as many links as such pieces,
/// the `k`-th link being the text between the first two quotes of the
/// `k`-th such piece, whatever that text is.
pub proof fn law_links_are_quoted_texts(pieces: Seq<Seq<char>>, target: Seq<char>)
    ensures
        links_spec(pieces, target) == pieces.filter(|p: Seq<char>| has_substring(p, target)).map_values(
            |p: Seq<char>| get_slice_spec(p, quote(), quote()).unwrap().0,
        ),
    decreases pieces.len(),
{
    reveal(Seq::filter);
    let f = |p: Seq<char>| has_substring(p, target);
    let g = |p: Seq<char>| get_slice_spec(p, quote(), quote()).unwrap().0;
    if pieces.len() > 0 {
        law_links_are_quoted_texts(pieces.drop_last(), target);
        let sub = pieces.drop_last().filter(f);
        assert(pieces.filter(f) == (if f(pieces.last()) {
            sub.push(pieces.last())
        } else {
            sub
        }));
        if f(pieces.last()) {
            assert(sub.push(pieces.last()).map_values(g) =~= sub.map_values(g) + seq![g(pieces.last())]);
        } else {
            assert(sub.map_values(g) + Seq::<Seq<char>>::empty() =~= sub.map_values(g));
        }
    } else {
        assert(pieces.filter(f) =~= Seq::<Seq<char>>::empty());
        assert(pieces.filter(f).map_values(g) =~= Seq::<Seq<char>>::empty());
    }
}

} // verus!
