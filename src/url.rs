//! Pieces of the payload of a path: its id segment, what follows the id, and
//! its query.
use vstd::prelude::*;
use vstd::string::*;

use crate::query::{extract_query_params, query_entries, query_of_url, Query};
use crate::text::{
    find_either, has_prefix, leading_slashes, lemma_scan_to, lemma_skip_slashes, owned,
    scan_to, skip_slashes, trim_slashes,
};

verus! {

/// Where the id segment of `s` starts: after one leading `/`, if any.
pub open spec fn id_start(s: Seq<char>) -> int {
    if s.len() > 0 && s[0] == '/' {
        1
    } else {
        0
    }
}

/// The id segment of `s`: after one leading `/`, up to the next `/` or `?`.
pub open spec fn id_of(s: Seq<char>) -> Seq<char> {
    s.subrange(id_start(s), scan_to(s, id_start(s), '/', '?'))
}

/// What follows the id in `s`: `s` without its leading `/` characters and
/// without the id; all of `s` when there is no id.
pub open spec fn children_of(s: Seq<char>, id: Option<Seq<char>>) -> Seq<char> {
    match id {
        Some(i) => trim_slashes(s).subrange(i.len() as int, trim_slashes(s).len() as int),
        None => s,
    }
}

/// The id of `s` starts `s` once its leading `/` characters are gone.
pub proof fn lemma_id_starts_trimmed(s: Seq<char>)
    ensures
        has_prefix(trim_slashes(s), id_of(s)),
{
    let b = id_start(s);
    lemma_scan_to(s, b, '/', '?');
    lemma_skip_slashes(s, 0);
    let e = scan_to(s, b, '/', '?');
    let k = skip_slashes(s, 0);
    if b == 1 && s.len() > 1 && s[1] == '/' {
        assert(e == 1);
        assert(id_of(s) =~= Seq::<char>::empty());
        assert(trim_slashes(s).subrange(0, 0) =~= Seq::<char>::empty());
    } else {
        if b == 1 {
            if s.len() > 1 {
                lemma_skip_slashes(s, 1);
                assert(skip_slashes(s, 1) == 1);
            }
            assert(k == skip_slashes(s, 1));
        }
        assert(k == b);
        assert(trim_slashes(s).subrange(0, e - b) =~= id_of(s));
    }
}

/// The id segment of `url_string`: after one leading `/`, up to the next `/`
/// or `?`.
pub fn extract_id_parameter(url_string: &str) -> (r: String)
    ensures
        r@ == id_of(url_string@),
{
    let n = url_string.unicode_len();
    let b: usize = if n > 0 && url_string.get_char(0) == '/' {
        1
    } else {
        0
    };
    let e = find_either(url_string, b, '/', '?');
    proof {
        lemma_scan_to(url_string@, b as int, '/', '?');
    }
    owned(url_string.substring_char(b, e))
}

/// What follows the id `param_id` in `url_string`, query included; all of
/// `url_string` when there is no id.
pub fn extract_children_string(url_string: String, param_id: Option<String>) -> (r: String)
    requires
        param_id is Some ==> has_prefix(trim_slashes(url_string@), param_id->0@),
    ensures
        r@ == children_of(
            url_string@,
            match param_id {
                Some(i) => Some(i@),
                None => None,
            },
        ),
{
    match param_id {
        Some(id) => {
            let s = url_string.as_str();
            let n = s.unicode_len();
            let k = leading_slashes(s);
            proof {
                lemma_skip_slashes(s@, 0);
            }
            let m = id.as_str().unicode_len();
            owned(s.substring_char(k + m, n))
        },
        None => url_string,
    }
}

/// The payload pieces of `url_string` that are asked for: its id, its query,
/// and what follows the id.
pub fn extract_url_payload(
    url_string: String,
    with_id_param: bool,
    with_query_parameters: bool,
    with_children: bool,
) -> (r: (Option<String>, Option<Query>, Option<String>))
    ensures
        r.0 is Some == with_id_param,
        with_id_param ==> r.0->0@ == id_of(url_string@),
        r.1 is Some == with_query_parameters,
        with_query_parameters ==> query_entries(r.1->0) == query_of_url(url_string@),
        r.2 is Some == with_children,
        with_children ==> r.2->0@ == children_of(
            url_string@,
            if with_id_param {
                Some(id_of(url_string@))
            } else {
                None
            },
        ),
{
    let param_id = if with_id_param {
        Some(extract_id_parameter(url_string.as_str()))
    } else {
        None
    };
    let query_parameters = if with_query_parameters {
        Some(extract_query_params(url_string.as_str()))
    } else {
        None
    };
    let children_path = if with_children {
        let id_copy = match &param_id {
            Some(i) => Some(i.clone()),
            None => None,
        };
        proof {
            lemma_id_starts_trimmed(url_string@);
        }
        Some(extract_children_string(url_string, id_copy))
    } else {
        None
    };
    (param_id, query_parameters, children_path)
}

} // verus!
