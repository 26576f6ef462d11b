//! Which node a URL names.
//!
//! A node is written in configuration, in the cluster view and in messages, with or without a
//! scheme, with or without a trailing slash and in any letter case. Everything that compares nodes
//! goes through here.

use crate::lists::{lemma_joined_hold, lemma_take_all, lemma_take_grows};
use crate::text::{
    chars_of, find_from, first_at, law_what_is_found_stands_there, lower, lowered, same_text, stands_at, texts,
};
use vstd::prelude::*;

verus! {

/// What follows the first `://`; the whole string where there is none.
pub open spec fn after_scheme(url: Seq<char>) -> Seq<char> {
    match first_at(url, seq![':', '/', '/'], 0) {
        Some(i) => url.skip(i + 3),
        None => url,
    }
}

/// A string without the slashes at its end.
pub open spec fn without_slashes(s: Seq<char>) -> Seq<char>
    decreases s.len(),
{
    if s.len() > 0 && s.last() == '/' { without_slashes(s.drop_last()) } else { s }
}

/// Host and port of a URL: no scheme, no trailing slash.
pub open spec fn endpoint(url: Seq<char>) -> Seq<char> {
    without_slashes(after_scheme(url))
}

/// The identity of the node that a URL names.
pub open spec fn node(url: Seq<char>) -> Seq<char> {
    lower(endpoint(url))
}

/// Whether two URLs name one node.
pub open spec fn same_node(a: Seq<char>, b: Seq<char>) -> bool {
    node(a) == node(b)
}

/// Host and port of a URL.
pub fn endpoint_of<'a>(url: &'a str) -> (r: &'a str)
    ensures
        r@ == endpoint(url@),
{
    let chars = chars_of(url);
    let mut sep: Vec<char> = Vec::new();
    sep.push(':');
    sep.push('/');
    sep.push('/');
    assert(sep@ =~= seq![':', '/', '/']);
    let from: usize = match find_from(&chars, &sep, 0) {
        Some(i) => {
            assert(chars.len() >= i + 3);
            i + 3
        },
        None => 0,
    };
    let mut to: usize = chars.len();
    proof {
        assert(after_scheme(url@) =~= url@.subrange(from as int, to as int));
    }
    while to > from && chars[to - 1] == '/'
        invariant
            chars@ == url@,
            from <= to <= url@.len(),
            endpoint(url@) == without_slashes(url@.subrange(from as int, to as int)),
        decreases to,
    {
        assert(url@.subrange(from as int, to as int).drop_last() =~= url@.subrange(from as int, to - 1));
        to -= 1;
    }
    url.substring_char(from, to)
}

/// The key under which a node is remembered.
pub fn node_key(url: &str) -> (r: String)
    ensures
        r@ == node(url@),
{
    lowered(endpoint_of(url))
}

/// Whether two URLs name one node.
pub fn same_endpoint(a: &str, b: &str) -> (r: bool)
    ensures
        r == same_node(a@, b@),
{
    let x = node_key(a);
    let y = node_key(b);
    same_text(x.as_str(), y.as_str())
}

/// The nodes that a list of URLs names.
pub open spec fn nodes(urls: Seq<Seq<char>>) -> Set<Seq<char>> {
    Set::new(|n: Seq<char>| names(urls, n))
}

/// Whether some URL of a list names the node `n`.
pub open spec fn names(urls: Seq<Seq<char>>, n: Seq<char>) -> bool {
    exists|i: int| 0 <= i < urls.len() && node(#[trigger] urls[i]) == n
}

/// Whether a list of URLs names the node of `url`.
pub fn list_names(urls: &[String], url: &str) -> (r: bool)
    ensures
        r == names(texts(urls@), node(url@)),
{
    let key = node_key(url);
    let mut i: usize = 0;
    while i < urls.len()
        invariant
            key@ == node(url@),
            i <= urls@.len(),
            forall|j: int| 0 <= j < i ==> node(urls@[j]@) != key@,
        decreases urls@.len() - i,
    {
        let other = node_key(urls[i].as_str());
        if same_text(other.as_str(), key.as_str()) {
            assert(node(texts(urls@)[i as int]) == key@);
            return true;
        }
        i += 1;
    }
    false
}

/// The URLs of a list that name another node than `own`.
pub open spec fn without_node(urls: Seq<Seq<char>>, own: Seq<char>) -> Seq<Seq<char>>
    decreases urls.len(),
{
    if urls.len() == 0 {
        Seq::empty()
    } else {
        let before = without_node(urls.drop_last(), own);
        if same_node(urls.last(), own) { before } else { before.push(urls.last()) }
    }
}

/// The URLs of a list that name another node than `own`.
pub fn others(urls: &Vec<String>, own: &str) -> (r: Vec<String>)
    ensures
        texts(r@) == without_node(texts(urls@), own@),
{
    let mut out: Vec<String> = Vec::new();
    let ghost all = texts(urls@);
    let mut i: usize = 0;
    assert(all.take(0) =~= Seq::empty());
    assert(texts(out@) =~= without_node(all.take(0), own@));
    while i < urls.len()
        invariant
            all == texts(urls@),
            i <= urls@.len(),
            texts(out@) == without_node(all.take(i as int), own@),
        decreases urls@.len() - i,
    {
        proof {
            lemma_take_grows(all, i as int);
        }
        let ghost before = texts(out@);
        if !same_endpoint(urls[i].as_str(), own) {
            out.push(urls[i].clone());
            assert(texts(out@) =~= before.push(urls@[i as int]@));
        }
        i += 1;
    }
    proof {
        lemma_take_all(all);
    }
    out
}

/// What is left of a list names the nodes of the list, but not the one taken out.
pub proof fn law_others_leave_one_node_out(urls: Seq<Seq<char>>, own: Seq<char>)
    ensures
        nodes(without_node(urls, own)) == nodes(urls).remove(node(own)),
    decreases urls.len(),
{
    if urls.len() == 0 {
        assert(nodes(without_node(urls, own)) =~= nodes(urls).remove(node(own)));
    } else {
        let rest = urls.drop_last();
        law_others_leave_one_node_out(rest, own);
        assert(urls =~= rest.push(urls.last()));
        lemma_nodes_push(rest, urls.last());
        lemma_nodes_push(without_node(rest, own), urls.last());
        assert(nodes(without_node(urls, own)) =~= nodes(urls).remove(node(own)));
    }
}

/// One URL more names one node more.
pub proof fn lemma_nodes_push(urls: Seq<Seq<char>>, url: Seq<char>)
    ensures
        nodes(urls.push(url)) == nodes(urls).insert(node(url)),
{
    let more = urls.push(url);
    assert forall|n: Seq<char>| names(more, n) <==> (names(urls, n) || n == node(url)) by {
        if names(urls, n) {
            let i = choose|i: int| 0 <= i < urls.len() && node(#[trigger] urls[i]) == n;
            assert(more[i] == urls[i]);
        }
        if n == node(url) {
            assert(more[urls.len() as int] == url);
        }
        if names(more, n) && n != node(url) {
            let i = choose|i: int| 0 <= i < more.len() && node(#[trigger] more[i]) == n;
            assert(urls[i] == more[i]);
        }
    }
    assert(nodes(more) =~= nodes(urls).insert(node(url)));
}

/// Dropping the scheme and the trailing slashes of an endpoint changes nothing more.
pub proof fn law_slashes_are_stripped_once(s: Seq<char>)
    ensures
        without_slashes(without_slashes(s)) == without_slashes(s),
    decreases s.len(),
{
    if s.len() > 0 && s.last() == '/' {
        law_slashes_are_stripped_once(s.drop_last());
    }
}

proof fn lemma_slashes_go(host: Seq<char>, slashes: Seq<char>)
    requires
        host.len() > 0 ==> host.last() != '/',
        forall|i: int| 0 <= i < slashes.len() ==> #[trigger] slashes[i] == '/',
    ensures
        without_slashes(host + slashes) == host,
    decreases slashes.len(),
{
    if slashes.len() == 0 {
        assert(host + slashes =~= host);
    } else {
        assert((host + slashes).last() == slashes.last());
        assert((host + slashes).drop_last() =~= host + slashes.drop_last());
        lemma_slashes_go(host, slashes.drop_last());
    }
}

proof fn lemma_first_is(url: Seq<char>, sep: Seq<char>, from: int, k: int)
    requires
        0 <= from <= k,
        sep.len() > 0,
        stands_at(url, sep, k),
        forall|j: int| 0 <= j < k ==> #[trigger] url[j] != sep[0],
    ensures
        first_at(url, sep, from) == Some(k),
    decreases k - from,
{
    if from < k {
        assert(url.subrange(from, from + sep.len())[0] == url[from]);
        lemma_first_is(url, sep, from + 1, k);
    }
}

/// What follows a scheme is what stood after it.
pub proof fn lemma_after_scheme(scheme: Seq<char>, rest: Seq<char>)
    requires
        forall|i: int| 0 <= i < scheme.len() ==> #[trigger] scheme[i] != ':',
    ensures
        after_scheme(scheme + seq![':', '/', '/'] + rest) == rest,
{
    let sep = seq![':', '/', '/'];
    let url = scheme + sep + rest;
    let k = scheme.len() as int;
    assert(url.subrange(k, k + 3) =~= sep);
    assert forall|j: int| 0 <= j < k implies #[trigger] url[j] != sep[0] by {
        assert(url[j] == scheme[j]);
    }
    lemma_first_is(url, sep, 0, k);
    assert(url.skip(k + 3) =~= rest);
}

proof fn lemma_no_scheme(url: Seq<char>)
    requires
        forall|i: int| 0 <= i < url.len() - 1 && #[trigger] url[i] == ':' ==> url[i + 1] != '/',
    ensures
        after_scheme(url) == url,
{
    let sep = seq![':', '/', '/'];
    if first_at(url, sep, 0) is Some {
        law_what_is_found_stands_there(url, sep, 0);
        let at = first_at(url, sep, 0)->0;
        assert(url.subrange(at, at + 3)[0] == url[at] && url.subrange(at, at + 3)[1] == url[at + 1]);
        assert(sep[0] == ':' && sep[1] == '/');
    }
}

/// A host names the same node with a scheme before it and without one, and however many slashes
/// follow it; nothing of the host is lost.
pub proof fn law_scheme_and_slashes_name_nothing(scheme: Seq<char>, host: Seq<char>, slashes: Seq<char>)
    requires
        forall|i: int| 0 <= i < scheme.len() ==> #[trigger] scheme[i] != ':',
        host.len() > 0 ==> host.last() != '/',
        forall|i: int| 0 <= i < slashes.len() ==> #[trigger] slashes[i] == '/',
    ensures
        endpoint(scheme + seq![':', '/', '/'] + (host + slashes)) == host,
        node(scheme + seq![':', '/', '/'] + (host + slashes)) == lower(host),
        (forall|i: int| 0 <= i < (host + slashes).len() - 1 && #[trigger] (host + slashes)[i] == ':' ==> (host + slashes)[i + 1] != '/')
            ==> endpoint(host + slashes) == host
            && node(host + slashes) == lower(host),
{
    lemma_after_scheme(scheme, host + slashes);
    lemma_slashes_go(host, slashes);
    if forall|i: int| 0 <= i < (host + slashes).len() - 1 && #[trigger] (host + slashes)[i] == ':' ==> (host + slashes)[i + 1] != '/' {
        lemma_no_scheme(host + slashes);
    }
}

/// What is left of a list are the URLs that name another node, each as it was written.
pub proof fn law_others_are_left_as_they_are(urls: Seq<Seq<char>>, own: Seq<char>, url: Seq<char>)
    ensures
        without_node(urls, own).contains(url) <==> urls.contains(url) && node(url) != node(own),
    decreases urls.len(),
{
    lemma_joined_hold::<Seq<char>>();
    if urls.len() > 0 {
        law_others_are_left_as_they_are(urls.drop_last(), own, url);
        assert(urls =~= urls.drop_last().push(urls.last()));
    }
}

} // verus!
