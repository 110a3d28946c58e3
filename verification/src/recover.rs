use crate::model::{eff_tasks, Backlog, BacklogError, BacklogV};
use crate::node::{yaml_parse_of, yaml_render_of, parse_yaml_node, render_yaml_node, NodeV};
use crate::schema::{backlog_from_node, backlog_of_node, backlog_to_node};
use crate::text::{
    all_spaces, chars_of, find_first, find_sub, is_space_char, is_trim_hi, is_trim_lo,
    lemma_trim_bounds, lemma_trim_hi_unique, lemma_trim_lo_unique, match_at, occurs_at,
    replace_all, replace_spec, string_from_chars, subvec, trim_spec, trim_vec,
};
use crate::validate::{has_cycle, has_dangling, is_validate_result};
use vstd::prelude::*;

verus! {

/// The interior of the first fenced block opened by the given fence, trimmed;
/// None when no such block closes with content.
pub open spec fn fence_extract(t: Seq<char>, open_pat: Seq<char>) -> Option<Seq<char>> {
    match find_first(t, open_pat) {
        Some(s) => {
            let rest = t.subrange(s + open_pat.len(), t.len() as int);
            match find_first(rest, "```"@) {
                Some(e) => if e > 0 {
                    Some(trim_spec(rest.subrange(0, e)))
                } else {
                    None
                },
                None => None,
            }
        },
        None => None,
    }
}

/// The text up to the first occurrence of the marker, trimmed; None when the
/// marker is absent or stands at the very start.
pub open spec fn cut_at(rest: Seq<char>, m: Seq<char>) -> Option<Seq<char>> {
    match find_first(rest, m) {
        Some(e) => if e > 0 {
            Some(trim_spec(rest.subrange(0, e)))
        } else {
            None
        },
        None => None,
    }
}

/// From the first project-name token on, cut at the first separator found,
/// trying the separators in a fixed priority order.
pub open spec fn project_extract(t: Seq<char>) -> Option<Seq<char>> {
    match find_first(t, "project:"@) {
        Some(s) => {
            let rest = t.subrange(s, t.len() as int);
            Some(
                match cut_at(rest, "\n\n"@) {
                    Some(r) => r,
                    None => match cut_at(rest, "\r\n\r\n"@) {
                        Some(r) => r,
                        None => match cut_at(rest, "---"@) {
                            Some(r) => r,
                            None => match cut_at(rest, "###"@) {
                                Some(r) => r,
                                None => trim_spec(rest),
                            },
                        },
                    },
                },
            )
        },
        None => None,
    }
}

/// What document recovery extracts from a text: the text itself when it
/// already starts (after trimming) with the project-name token; else the
/// first tagged fenced block; else the first fenced block; else the text
/// from the project-name token to a separator; else the text unchanged.
pub open spec fn extract_spec(t: Seq<char>) -> Seq<char> {
    if occurs_at(trim_spec(t), "project:"@, 0) {
        t
    } else {
        match fence_extract(t, "```yaml"@) {
            Some(r) => r,
            None => match fence_extract(t, "```"@) {
                Some(r) => r,
                None => match project_extract(t) {
                    Some(r) => r,
                    None => t,
                },
            },
        }
    }
}

/// The bounded repair pass: each known field name, written as a bare key, is
/// replaced by its quoted form, token by token in a fixed order.
pub open spec fn repaired_spec(t: Seq<char>) -> Seq<char> {
    let r1 = replace_spec(t, "id:"@, "\"id\":"@);
    let r2 = replace_spec(r1, "title:"@, "\"title\":"@);
    let r3 = replace_spec(r2, "depends:"@, "\"depends\":"@);
    let r4 = replace_spec(r3, "deliverable:"@, "\"deliverable\":"@);
    replace_spec(r4, "done_when:"@, "\"done_when\":"@)
}

/// Strict parsing: the YAML parser, then the document-shape reading; the
/// error carries the parser's message, or the fixed shape message.
pub open spec fn strict_parse_spec(s: Seq<char>) -> Result<BacklogV, Seq<char>> {
    match yaml_parse_of(s) {
        Ok(n) => match backlog_of_node(n) {
            Ok(b) => Ok(b),
            Err(_) => Err("document does not match the backlog shape"@),
        },
        Err(e) => Err(e),
    }
}

/// A backlog is consistent: no dangling dependency and no dependency cycle.
pub open spec fn valid_backlog(bv: BacklogV) -> bool {
    !has_dangling(eff_tasks(bv)) && !has_cycle(eff_tasks(bv))
}

/// What a parse stage that reached a backlog value must answer: the value
/// when it is consistent, else its validation error.
pub open spec fn backlog_result_matches(bv: BacklogV, r: Result<Backlog, BacklogError>) -> bool {
    if valid_backlog(bv) {
        r matches Ok(b) && b@ == bv
    } else {
        r matches Err(e) && is_validate_result(eff_tasks(bv), Err(e))
    }
}

/// The whole recovery pipeline's contract: empty input is rejected as such;
/// else the raw text, the extracted text and the repaired text are tried in
/// order, the first that parses decides, and parse failure of all three
/// carries the extracted text's parse error.
pub open spec fn pipeline_ok(raw: Seq<char>, r: Result<Backlog, BacklogError>) -> bool {
    let ext = extract_spec(raw);
    let fixed = repaired_spec(ext);
    &&& (r matches Err(BacklogError::EmptyInput) <==> all_spaces(raw))
    &&& (!all_spaces(raw) ==> {
        let first = strict_parse_spec(raw);
        match first {
            Ok(bv1) => if valid_backlog(bv1) {
                r matches Ok(b) && b@ == bv1
            } else {
                later_stages_match(ext, fixed, r)
            },
            Err(_) => later_stages_match(ext, fixed, r),
        }
    })
}

/// What the extraction and repair stages must answer once the raw text did
/// not already decide.
pub open spec fn later_stages_match(
    ext: Seq<char>,
    fixed: Seq<char>,
    r: Result<Backlog, BacklogError>,
) -> bool {
    match strict_parse_spec(ext) {
        Ok(bv) => backlog_result_matches(bv, r),
        Err(m) => match strict_parse_spec(fixed) {
            Ok(bv) => backlog_result_matches(bv, r),
            Err(_) => r matches Err(BacklogError::ParseError(d)) && d@ == m,
        },
    }
}

/// A text trims to nothing exactly when it is all whitespace.
pub proof fn lemma_trim_empty_iff(s: Seq<char>)
    ensures
        trim_spec(s).len() == 0 <==> all_spaces(s),
{
    lemma_trim_bounds(s);
    let lo = crate::text::trim_lo(s);
    let hi = crate::text::trim_hi(s);
    if all_spaces(s) {
        assert(is_trim_lo(s, s.len() as int));
        lemma_trim_lo_unique(s, lo, s.len() as int);
        assert(is_trim_hi(s, 0));
        lemma_trim_hi_unique(s, hi, 0);
        if s.len() == 0 {
            assert(trim_spec(s).len() == 0);
        } else {
            assert(lo > hi);
        }
    }
    if !all_spaces(s) {
        let k = choose|k: int| 0 <= k < s.len() && !is_space_char(s[k]);
        assert(lo <= k) by {
            if lo > k {
                assert(is_space_char(s[k]));
            }
        }
        assert(hi > k) by {
            if hi <= k {
                assert(is_space_char(s[k]));
            }
        }
        assert(trim_spec(s).len() > 0);
    }
}

/// Parses a text strictly as a backlog document, without recovery and
/// without validation.
pub fn backlog_from_yaml(s: &str) -> (r: Result<Backlog, String>)
    ensures
        match r {
            Ok(b) => strict_parse_spec(s@) == Ok::<BacklogV, Seq<char>>(b@),
            Err(e) => strict_parse_spec(s@) matches Err(m) && m == e@,
        },
{
    match parse_yaml_node(s) {
        Ok(n) => match backlog_from_node(&n) {
            Ok(b) => Ok(b),
            Err(e) => Err(e),
        },
        Err(e) => Err(e),
    }
}

/// Renders a backlog as a YAML document through its canonical document node.
pub fn backlog_to_yaml(b: &Backlog) -> (r: Result<String, String>)
    ensures
        match r {
            Ok(s) => exists|n: NodeV|
                #[trigger] backlog_of_node(n) == Ok::<BacklogV, ()>(b@) && yaml_render_of(n)
                    == Ok::<Seq<char>, Seq<char>>(s@),
            Err(e) => exists|n: NodeV|
                #[trigger] backlog_of_node(n) == Ok::<BacklogV, ()>(b@) && yaml_render_of(n)
                    == Err::<Seq<char>, Seq<char>>(e@),
        },
{
    let node = backlog_to_node(b);
    let r = render_yaml_node(&node);
    proof {
        let nv = crate::node::node_view(node);
        assert(backlog_of_node(nv) == Ok::<BacklogV, ()>(b@));
    }
    r
}

/// Extracts the most plausible document substring from a noisy text.
pub fn extract_yaml_content(text: &str) -> (r: String)
    ensures
        r@ == extract_spec(text@),
{
    let tv = chars_of(text);
    let tn: usize = tv.len();
    let trimmed = trim_vec(&tv);
    let proj = chars_of("project:");
    proof {
        reveal_strlit("project:");
        reveal_strlit("```yaml");
        reveal_strlit("```");
        reveal_strlit("\n\n");
        reveal_strlit("\r\n\r\n");
        reveal_strlit("---");
        reveal_strlit("###");
        assert("project:"@.len() == 8);
        assert("```yaml"@.len() == 7);
        assert("```"@.len() == 3);
        assert("\n\n"@.len() == 2);
        assert("\r\n\r\n"@.len() == 4);
        assert("---"@.len() == 3);
        assert("###"@.len() == 3);
    }
    if trimmed.len() >= proj.len() && match_at(&trimmed, &proj, 0) {
        return text.to_owned();
    }
    proof {
        assert(!occurs_at(trim_spec(text@), "project:"@, 0));
    }
    let fence = chars_of("```");
    let fy = chars_of("```yaml");
    match find_sub(&tv, &fy) {
        Some(s) => {
            let rest = subvec(&tv, s + fy.len(), tn);
            match find_sub(&rest, &fence) {
                Some(e) => {
                    if e > 0 {
                        let inner = subvec(&rest, 0, e);
                        let out = trim_vec(&inner);
                        proof {
                            assert(fence_extract(text@, "```yaml"@) == Some(out@));
                        }
                        return string_from_chars(&out);
                    }
                },
                None => {},
            }
        },
        None => {},
    }
    assert(fence_extract(text@, "```yaml"@) is None);
    match find_sub(&tv, &fence) {
        Some(s) => {
            let rest = subvec(&tv, s + fence.len(), tn);
            match find_sub(&rest, &fence) {
                Some(e) => {
                    if e > 0 {
                        let inner = subvec(&rest, 0, e);
                        let out = trim_vec(&inner);
                        proof {
                            assert(fence_extract(text@, "```"@) == Some(out@));
                        }
                        return string_from_chars(&out);
                    }
                },
                None => {},
            }
        },
        None => {},
    }
    assert(fence_extract(text@, "```"@) is None);
    match find_sub(&tv, &proj) {
        Some(s) => {
            let rest = subvec(&tv, s, tn);
            let m1 = chars_of("\n\n");
            match find_sub(&rest, &m1) {
                Some(e) => {
                    if e > 0 {
                        let out = trim_vec(&subvec(&rest, 0, e));
                        assert(cut_at(rest@, "\n\n"@) == Some(out@));
                        return string_from_chars(&out);
                    }
                },
                None => {},
            }
            assert(cut_at(rest@, "\n\n"@) is None);
            let m2 = chars_of("\r\n\r\n");
            match find_sub(&rest, &m2) {
                Some(e) => {
                    if e > 0 {
                        let out = trim_vec(&subvec(&rest, 0, e));
                        assert(cut_at(rest@, "\r\n\r\n"@) == Some(out@));
                        return string_from_chars(&out);
                    }
                },
                None => {},
            }
            assert(cut_at(rest@, "\r\n\r\n"@) is None);
            let m3 = chars_of("---");
            match find_sub(&rest, &m3) {
                Some(e) => {
                    if e > 0 {
                        let out = trim_vec(&subvec(&rest, 0, e));
                        assert(cut_at(rest@, "---"@) == Some(out@));
                        return string_from_chars(&out);
                    }
                },
                None => {},
            }
            assert(cut_at(rest@, "---"@) is None);
            let m4 = chars_of("###");
            match find_sub(&rest, &m4) {
                Some(e) => {
                    if e > 0 {
                        let out = trim_vec(&subvec(&rest, 0, e));
                        assert(cut_at(rest@, "###"@) == Some(out@));
                        return string_from_chars(&out);
                    }
                },
                None => {},
            }
            assert(cut_at(rest@, "###"@) is None);
            let out = trim_vec(&rest);
            assert(project_extract(text@) == Some(out@));
            return string_from_chars(&out);
        },
        None => {},
    }
    assert(project_extract(text@) is None);
    text.to_owned()
}

/// The repair pass: quotes the known field names and accepts the result only
/// when it then parses strictly.
pub fn try_fix_json_errors(yaml_str: &str) -> (r: Option<String>)
    ensures
        match r {
            Some(f) => f@ == repaired_spec(yaml_str@) && strict_parse_spec(f@) is Ok,
            None => strict_parse_spec(repaired_spec(yaml_str@)) is Err,
        },
{
    let tv = chars_of(yaml_str);
    proof {
        reveal_strlit("id:");
        reveal_strlit("title:");
        reveal_strlit("depends:");
        reveal_strlit("deliverable:");
        reveal_strlit("done_when:");
        assert("id:"@.len() == 3);
        assert("title:"@.len() == 6);
        assert("depends:"@.len() == 8);
        assert("deliverable:"@.len() == 12);
        assert("done_when:"@.len() == 10);
    }
    let r1 = replace_all(&tv, &chars_of("id:"), &chars_of("\"id\":"));
    let r2 = replace_all(&r1, &chars_of("title:"), &chars_of("\"title\":"));
    let r3 = replace_all(&r2, &chars_of("depends:"), &chars_of("\"depends\":"));
    let r4 = replace_all(&r3, &chars_of("deliverable:"), &chars_of("\"deliverable\":"));
    let r5 = replace_all(&r4, &chars_of("done_when:"), &chars_of("\"done_when\":"));
    let fixed = string_from_chars(&r5);
    assert(fixed@ == repaired_spec(yaml_str@));
    match backlog_from_yaml(fixed.as_str()) {
        Ok(_) => Some(fixed),
        Err(_) => None,
    }
}

/// Recovers a backlog from a noisy text: the text itself, the extracted
/// document, and the repaired document are parsed in turn; the first that
/// parses is validated and answered; empty input and exhaustion are errors.
pub fn parse_and_validate_yaml(yaml_str: &str) -> (r: Result<Backlog, BacklogError>)
    ensures
        pipeline_ok(yaml_str@, r),
{
    let tv = chars_of(yaml_str);
    let trimmed = trim_vec(&tv);
    proof {
        lemma_trim_empty_iff(yaml_str@);
    }
    if trimmed.len() == 0 {
        return Err(BacklogError::EmptyInput);
    }
    match backlog_from_yaml(yaml_str) {
        Ok(b) => {
            match b.validate() {
                Ok(()) => {
                    return Ok(b);
                },
                Err(_) => {},
            }
        },
        Err(_) => {},
    }
    let content = extract_yaml_content(yaml_str);
    match backlog_from_yaml(content.as_str()) {
        Ok(b2) => {
            match b2.validate() {
                Ok(()) => Ok(b2),
                Err(e) => Err(e),
            }
        },
        Err(e1) => {
            match try_fix_json_errors(content.as_str()) {
                Some(f) => {
                    match backlog_from_yaml(f.as_str()) {
                        Ok(b3) => match b3.validate() {
                            Ok(()) => Ok(b3),
                            Err(e) => Err(e),
                        },
                        Err(e2) => {
                            proof {
                                assert(false);
                            }
                            Err(BacklogError::ParseError(e2))
                        },
                    }
                },
                None => Err(BacklogError::ParseError(e1)),
            }
        },
    }
}

} // verus!
