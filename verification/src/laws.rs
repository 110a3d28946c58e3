use crate::model::{BacklogError, TaskV};
use crate::recover::extract_spec;
use crate::text::{
    contains_seq, is_space_char, is_trim_hi, is_trim_lo, lemma_find_first_some, lemma_trim_bounds,
    lemma_trim_hi_unique, lemma_trim_lo_unique, occurs_at, trim_hi, trim_lo, trim_spec,
};
use crate::validate::{
    has_cycle, has_dangling, is_first_dangling, is_validate_result,
};
use vstd::prelude::*;

verus! {

/// Validator soundness: validation succeeds exactly when no dependency is
/// dangling and the dependency graph over existing ids is acyclic.
pub proof fn lemma_validator_soundness(eff: Seq<TaskV>, r: Result<(), BacklogError>)
    requires
        is_validate_result(eff, r),
    ensures
        r is Ok <==> (!has_dangling(eff) && !has_cycle(eff)),
{
}

/// A backlog with both a dangling dependency and a cycle reports the dangling
/// dependency, never the cycle.
pub proof fn lemma_dangling_precedes_cycle(eff: Seq<TaskV>, r: Result<(), BacklogError>)
    requires
        is_validate_result(eff, r),
        has_dangling(eff),
        has_cycle(eff),
    ensures
        r matches Err(BacklogError::DanglingDependency { .. }),
{
}

/// The first dangling dependency is unique.
pub proof fn lemma_first_dangling_unique(eff: Seq<TaskV>, i1: int, j1: int, i2: int, j2: int)
    requires
        is_first_dangling(eff, i1, j1),
        is_first_dangling(eff, i2, j2),
    ensures
        i1 == i2 && j1 == j2,
{
    assert(crate::validate::dep_dangling(eff, i1, j1));
    assert(crate::validate::dep_dangling(eff, i2, j2));
}

/// Idempotence of validation: two results that meet the validation contract
/// on one effective task set agree on success, on the error kind, and on the
/// dangling dependency reported.
pub proof fn lemma_validate_idempotent(
    eff: Seq<TaskV>,
    r1: Result<(), BacklogError>,
    r2: Result<(), BacklogError>,
)
    requires
        is_validate_result(eff, r1),
        is_validate_result(eff, r2),
    ensures
        r1 is Ok <==> r2 is Ok,
        (r1 matches Err(BacklogError::DanglingDependency { .. })) <==> (r2 matches Err(
            BacklogError::DanglingDependency { .. },
        )),
        (r1 matches Err(BacklogError::CycleDetected(_))) <==> (r2 matches Err(
            BacklogError::CycleDetected(_),
        )),
        (r1 matches Err(BacklogError::DanglingDependency { task_id: t1, missing: m1 }) && r2
            matches Err(BacklogError::DanglingDependency { task_id: t2, missing: m2 }) && t1@
            == t2@ && m1@ == m2@) || !has_dangling(eff),
{
    if has_dangling(eff) {
        let (i1, j1) = choose|i: int, j: int|
            #[trigger] is_first_dangling(eff, i, j) && (r1 matches Err(
                BacklogError::DanglingDependency { task_id, missing },
            ) && task_id@ == eff[i].id && missing@ == eff[i].depends[j]);
        let (i2, j2) = choose|i: int, j: int|
            #[trigger] is_first_dangling(eff, i, j) && (r2 matches Err(
                BacklogError::DanglingDependency { task_id, missing },
            ) && task_id@ == eff[i].id && missing@ == eff[i].depends[j]);
        lemma_first_dangling_unique(eff, i1, j1, i2, j2);
    }
}

/// Idempotence of the readiness query: the ready set is a function of the
/// backlog value alone, so any two results that meet the query's contract
/// are equal.
pub proof fn lemma_ready_tasks_idempotent(
    b: crate::model::BacklogV,
    r1: Seq<TaskV>,
    r2: Seq<TaskV>,
)
    requires
        r1 == crate::next::ready_tasks_spec(b),
        r2 == crate::next::ready_tasks_spec(b),
    ensures
        r1 == r2,
{
}

/// When the trim bounds are known, trimming is the subrange between them.
proof fn lemma_trim_exact(s: Seq<char>, lo: int, hi: int)
    requires
        is_trim_lo(s, lo),
        is_trim_hi(s, hi),
        lo <= hi,
    ensures
        trim_spec(s) == s.subrange(lo, hi),
{
    lemma_trim_bounds(s);
    lemma_trim_lo_unique(s, lo, trim_lo(s));
    lemma_trim_hi_unique(s, hi, trim_hi(s));
}

/// A nonempty text that equals its own trim neither starts nor ends with
/// whitespace.
proof fn lemma_trimmed_ends(d: Seq<char>)
    requires
        trim_spec(d) == d,
        d.len() > 0,
    ensures
        !is_space_char(d[0]),
        !is_space_char(d[d.len() - 1]),
{
    lemma_trim_bounds(d);
    let lo = trim_lo(d);
    let hi = trim_hi(d);
    if lo <= hi {
        assert(d.subrange(lo, hi).len() == hi - lo);
        assert(lo == 0 && hi == d.len());
    } else {
        assert(trim_spec(d).len() == 0);
    }
}

/// In the text that follows an opening fence — a newline, the document, a
/// newline and the closing fence — the first fence token stands right after
/// the document.
proof fn lemma_close_fence_first(d: Seq<char>)
    requires
        !contains_seq(d, "```"@),
    ensures
        crate::text::find_first(seq!['\n'] + d + "\n```"@, "```"@) == Some(d.len() + 2int),
{
    reveal_strlit("```");
    reveal_strlit("\n```");
    let rest = seq!['\n'] + d + "\n```"@;
    let dn = d.len() as int;
    assert("```"@.len() == 3);
    assert("\n```"@.len() == 4);
    assert("\n```"@[0] == '\n');
    assert("\n```"@[1] == '`');
    assert("\n```"@[2] == '`');
    assert("\n```"@[3] == '`');
    assert("```"@[0] == '`');
    assert("```"@[1] == '`');
    assert("```"@[2] == '`');
    assert(rest.len() == dn + 5);
    assert(rest[dn + 1] == '\n');
    assert(occurs_at(rest, "```"@, dn + 2)) by {
        assert(rest.subrange(dn + 2, dn + 5) =~= "```"@);
    }
    assert forall|j: int| 0 <= j < dn + 2 implies !occurs_at(rest, "```"@, j) by {
        if occurs_at(rest, "```"@, j) {
            assert(rest.subrange(j, j + 3) == "```"@);
            if j == 0 {
                assert(rest.subrange(0, 3)[0] == rest[0]);
                assert(rest[0] == '\n');
            } else if j + 3 <= dn + 1 {
                assert(d.subrange(j - 1, j + 2) =~= rest.subrange(j, j + 3));
                assert(occurs_at(d, "```"@, j - 1));
            } else {
                let k = dn + 1 - j;
                assert(0 <= k < 3);
                assert(rest.subrange(j, j + 3)[k] == rest[dn + 1]);
                assert("```"@[k] == '`');
            }
        }
    }
    lemma_find_first_some(rest, "```"@, dn + 2);
}

/// Trimming a document that is wrapped in one newline on each side gives
/// back the document.
proof fn lemma_trim_newline_wrapped(d: Seq<char>)
    requires
        trim_spec(d) == d,
        d.len() > 0,
    ensures
        trim_spec(seq!['\n'] + d + seq!['\n']) == d,
{
    let inner = seq!['\n'] + d + seq!['\n'];
    let dn = d.len() as int;
    lemma_trimmed_ends(d);
    assert(is_space_char('\n'));
    assert(inner[0] == '\n');
    assert(inner[dn + 1] == '\n');
    assert(inner[1] == d[0]);
    assert(inner[dn] == d[dn - 1]);
    assert(is_trim_lo(inner, 1));
    assert(is_trim_hi(inner, dn + 1));
    lemma_trim_exact(inner, 1, dn + 1);
    assert(inner.subrange(1, dn + 1) =~= d);
}

/// A text that starts with a backtick does not, after trimming, start with
/// the project-name token.
proof fn lemma_fence_start_not_project(w: Seq<char>)
    requires
        w.len() > 0,
        w[0] == '`',
    ensures
        !occurs_at(trim_spec(w), "project:"@, 0),
{
    reveal_strlit("project:");
    assert("project:"@.len() == 8);
    assert("project:"@[0] == 'p');
    if occurs_at(trim_spec(w), "project:"@, 0) {
        lemma_trim_bounds(w);
        let lo = trim_lo(w);
        let hi = trim_hi(w);
        assert(!is_space_char('`'));
        assert(is_trim_lo(w, 0));
        lemma_trim_lo_unique(w, lo, 0);
        assert(trim_spec(w).len() >= 8);
        assert(lo <= hi);
        assert(trim_spec(w)[0] == w[0]);
        assert(trim_spec(w).subrange(0, 8)[0] == trim_spec(w)[0]);
    }
}

/// Recovery tolerance: a trimmed document that starts with the project-name
/// token and holds no fence token is recovered unchanged from itself, from a
/// tagged fenced block, and from an untagged fenced block.
pub proof fn lemma_recovery_tolerance(d: Seq<char>)
    requires
        trim_spec(d) == d,
        d.len() > 0,
        occurs_at(d, "project:"@, 0),
        !contains_seq(d, "```"@),
    ensures
        extract_spec(d) == d,
        extract_spec("```yaml\n"@ + d + "\n```"@) == d,
        extract_spec("```\n"@ + d + "\n```"@) == d,
{
    reveal_strlit("project:");
    reveal_strlit("```yaml");
    reveal_strlit("```yaml\n");
    reveal_strlit("```");
    reveal_strlit("```\n");
    reveal_strlit("\n```");
    let dn = d.len() as int;
    assert("project:"@.len() == 8);
    assert("```yaml"@.len() == 7);
    assert("```yaml\n"@.len() == 8);
    assert("```"@.len() == 3);
    assert("```\n"@.len() == 4);
    assert("\n```"@.len() == 4);

    // The bare document: the first stage takes it whole.
    assert(extract_spec(d) == d);

    // The tagged fenced block.
    let w1 = "```yaml\n"@ + d + "\n```"@;
    assert(w1.len() == dn + 12);
    assert(w1[0] == '`');
    lemma_fence_start_not_project(w1);
    assert(occurs_at(w1, "```yaml"@, 0)) by {
        assert(w1.subrange(0, 7) =~= "```yaml"@);
    }
    assert(crate::text::is_first_occurrence(w1, "```yaml"@, 0));
    lemma_find_first_some(w1, "```yaml"@, 0);
    let rest1 = w1.subrange(7, w1.len() as int);
    assert(rest1 =~= seq!['\n'] + d + "\n```"@);
    lemma_close_fence_first(d);
    assert(crate::text::find_first(rest1, "```"@) == Some(dn + 2));
    assert(rest1.subrange(0, dn + 2) =~= seq!['\n'] + d + seq!['\n']);
    lemma_trim_newline_wrapped(d);
    assert(crate::recover::fence_extract(w1, "```yaml"@) == Some(d));
    assert(extract_spec(w1) == d);

    // The untagged fenced block.
    let w2 = "```\n"@ + d + "\n```"@;
    assert(w2.len() == dn + 8);
    assert(w2[0] == '`');
    lemma_fence_start_not_project(w2);
    // No tagged fence occurs in it.
    assert forall|j: int| true implies !occurs_at(w2, "```yaml"@, j) by {
        if occurs_at(w2, "```yaml"@, j) {
            assert(w2.subrange(j, j + 7) == "```yaml"@);
            assert(0 <= j && j + 7 <= dn + 8);
            assert(forall|k: int| 0 <= k < 7 ==> "```yaml"@[k] != '\n');
            assert(w2[3] == '\n');
            assert(w2[dn + 4] == '\n');
            if j == 0 {
                assert(w2.subrange(j, j + 7)[3] == w2[3]);
                assert("```yaml"@[3] == 'y');
            } else if j <= 3 {
                let k = 3 - j;
                assert(0 <= k < 7);
                assert(w2.subrange(j, j + 7)[k] == w2[3]);
            } else if j + 7 <= dn + 4 {
                assert("```yaml"@[0] == '`');
                assert("```yaml"@[1] == '`');
                assert("```yaml"@[2] == '`');
                assert(w2[j] == w2.subrange(j, j + 7)[0]);
                assert(w2[j + 1] == w2.subrange(j, j + 7)[1]);
                assert(w2[j + 2] == w2.subrange(j, j + 7)[2]);
                assert(d.subrange(j - 4, j - 1) =~= "```"@) by {
                    assert(d[j - 4] == w2[j]);
                    assert(d[j - 3] == w2[j + 1]);
                    assert(d[j - 2] == w2[j + 2]);
                }
                assert(occurs_at(d, "```"@, j - 4));
            } else {
                let k = dn + 4 - j;
                assert(0 <= k < 7);
                assert(w2.subrange(j, j + 7)[k] == w2[dn + 4]);
            }
        }
    }
    assert(crate::text::find_first(w2, "```yaml"@) is None) by {
        if crate::text::find_first(w2, "```yaml"@) is Some {
            let i = choose|i: int| crate::text::is_first_occurrence(w2, "```yaml"@, i);
            assert(occurs_at(w2, "```yaml"@, i));
        }
    }
    assert(crate::recover::fence_extract(w2, "```yaml"@) is None);
    assert(occurs_at(w2, "```"@, 0)) by {
        assert(w2.subrange(0, 3) =~= "```"@);
    }
    assert(crate::text::is_first_occurrence(w2, "```"@, 0));
    lemma_find_first_some(w2, "```"@, 0);
    let rest2 = w2.subrange(3, w2.len() as int);
    assert(rest2 =~= seq!['\n'] + d + "\n```"@);
    assert(crate::text::find_first(rest2, "```"@) == Some(dn + 2));
    assert(rest2.subrange(0, dn + 2) =~= seq!['\n'] + d + seq!['\n']);
    assert(crate::recover::fence_extract(w2, "```"@) == Some(d));
    assert(extract_spec(w2) == d);
}

/// Recovery tolerance for prose: a trimmed document that starts with the
/// project-name token, holds no fence token and no blank line, is recovered
/// unchanged from between prose paragraphs separated by blank lines.
pub proof fn lemma_recovery_tolerance_prose(pre: Seq<char>, d: Seq<char>, post: Seq<char>)
    requires
        trim_spec(d) == d,
        d.len() > 0,
        occurs_at(d, "project:"@, 0),
        !contains_seq(d, "```"@),
        !contains_seq(d, "\n\n"@),
        pre.len() > 0,
        !is_space_char(pre[0]),
        pre[0] != 'p',
        !contains_seq(pre, "project:"@),
        !contains_seq(pre, "```"@),
        !contains_seq(post, "```"@),
    ensures
        extract_spec(pre + "\n\n"@ + d + "\n\n"@ + post) == d,
{
    reveal_strlit("project:");
    reveal_strlit("```yaml");
    reveal_strlit("```");
    reveal_strlit("\n\n");
    let w = pre + "\n\n"@ + d + "\n\n"@ + post;
    let pn = pre.len() as int;
    let dn = d.len() as int;
    let wn = w.len() as int;
    assert("project:"@.len() == 8);
    assert("```yaml"@.len() == 7);
    assert("```"@.len() == 3);
    assert("\n\n"@.len() == 2);
    assert("\n\n"@[0] == '\n');
    assert("\n\n"@[1] == '\n');
    assert(forall|k: int| 0 <= k < 3 ==> "```"@[k] == '`');
    assert(forall|k: int| 0 <= k < 8 ==> "project:"@[k] != '\n');
    assert(wn == pn + dn + 4 + post.len());
    assert(w[pn] == '\n');
    assert(w[pn + 1] == '\n');
    assert(w[pn + dn + 2] == '\n');
    assert(w[pn + dn + 3] == '\n');
    lemma_trimmed_ends(d);

    // The first stage does not take the whole text.
    assert(!occurs_at(trim_spec(w), "project:"@, 0)) by {
        if occurs_at(trim_spec(w), "project:"@, 0) {
            lemma_trim_bounds(w);
            assert(w[0] == pre[0]);
            assert(is_trim_lo(w, 0));
            lemma_trim_lo_unique(w, trim_lo(w), 0);
            assert(trim_spec(w).len() >= 8);
            assert(trim_spec(w)[0] == w[0]);
            assert(trim_spec(w).subrange(0, 8)[0] == trim_spec(w)[0]);
            assert("project:"@[0] == 'p');
        }
    }

    // No fence token occurs anywhere.
    assert forall|j: int| true implies !occurs_at(w, "```"@, j) by {
        if occurs_at(w, "```"@, j) {
            assert(w.subrange(j, j + 3) == "```"@);
            assert(0 <= j && j + 3 <= wn);
            if j + 3 <= pn {
                assert(pre.subrange(j, j + 3) =~= w.subrange(j, j + 3));
                assert(occurs_at(pre, "```"@, j));
            } else if pn + 2 <= j && j + 3 <= pn + 2 + dn {
                assert(d.subrange(j - pn - 2, j + 3 - pn - 2) =~= w.subrange(j, j + 3));
                assert(occurs_at(d, "```"@, j - pn - 2));
            } else if j >= pn + dn + 4 {
                assert(post.subrange(j - pn - dn - 4, j + 3 - pn - dn - 4) =~= w.subrange(
                    j,
                    j + 3,
                ));
                assert(occurs_at(post, "```"@, j - pn - dn - 4));
            } else {
                let m: int = if j <= pn && pn < j + 3 {
                    pn
                } else if j <= pn + 1 && pn + 1 < j + 3 {
                    pn + 1
                } else if j <= pn + dn + 2 && pn + dn + 2 < j + 3 {
                    pn + dn + 2
                } else {
                    pn + dn + 3
                };
                assert(j <= m < j + 3);
                assert(w[m] == '\n');
                assert(w.subrange(j, j + 3)[m - j] == w[m]);
            }
        }
    }
    assert forall|j: int| true implies !occurs_at(w, "```yaml"@, j) by {
        if occurs_at(w, "```yaml"@, j) {
            assert(w.subrange(j, j + 7) == "```yaml"@);
            assert(w.subrange(j, j + 3) =~= "```"@) by {
                assert("```yaml"@[0] == '`');
                assert("```yaml"@[1] == '`');
                assert("```yaml"@[2] == '`');
                assert(w.subrange(j, j + 7)[0] == w[j]);
                assert(w.subrange(j, j + 7)[1] == w[j + 1]);
                assert(w.subrange(j, j + 7)[2] == w[j + 2]);
            }
            assert(occurs_at(w, "```"@, j));
        }
    }
    assert(crate::text::find_first(w, "```yaml"@) is None) by {
        if crate::text::find_first(w, "```yaml"@) is Some {
            let i = choose|i: int| crate::text::is_first_occurrence(w, "```yaml"@, i);
            assert(occurs_at(w, "```yaml"@, i));
        }
    }
    assert(crate::text::find_first(w, "```"@) is None) by {
        if crate::text::find_first(w, "```"@) is Some {
            let i = choose|i: int| crate::text::is_first_occurrence(w, "```"@, i);
            assert(occurs_at(w, "```"@, i));
        }
    }
    assert(crate::recover::fence_extract(w, "```yaml"@) is None);
    assert(crate::recover::fence_extract(w, "```"@) is None);

    // The project-name token first occurs where the document starts.
    assert(occurs_at(w, "project:"@, pn + 2)) by {
        assert(d.subrange(0, 8) == "project:"@);
        assert(w.subrange(pn + 2, pn + 10) =~= d.subrange(0, 8));
    }
    assert forall|j: int| 0 <= j < pn + 2 implies !occurs_at(w, "project:"@, j) by {
        if occurs_at(w, "project:"@, j) {
            assert(w.subrange(j, j + 8) == "project:"@);
            if j + 8 <= pn {
                assert(pre.subrange(j, j + 8) =~= w.subrange(j, j + 8));
                assert(occurs_at(pre, "project:"@, j));
            } else {
                let m: int = if j <= pn {
                    pn
                } else {
                    pn + 1
                };
                assert(j <= m < j + 8);
                assert(w[m] == '\n');
                assert(w.subrange(j, j + 8)[m - j] == w[m]);
            }
        }
    }
    lemma_find_first_some(w, "project:"@, pn + 2);
    let rest = w.subrange(pn + 2, wn);
    assert(rest =~= d + "\n\n"@ + post);

    // The first blank line after the document start ends it.
    assert(occurs_at(rest, "\n\n"@, dn)) by {
        assert(rest.subrange(dn, dn + 2) =~= "\n\n"@);
    }
    assert forall|j: int| 0 <= j < dn implies !occurs_at(rest, "\n\n"@, j) by {
        if occurs_at(rest, "\n\n"@, j) {
            assert(rest.subrange(j, j + 2) == "\n\n"@);
            if j + 2 <= dn {
                assert(d.subrange(j, j + 2) =~= rest.subrange(j, j + 2));
                assert(occurs_at(d, "\n\n"@, j));
            } else {
                assert(j == dn - 1);
                assert(rest.subrange(j, j + 2)[0] == rest[dn - 1]);
                assert(rest[dn - 1] == d[dn - 1]);
                assert(is_space_char('\n'));
            }
        }
    }
    lemma_find_first_some(rest, "\n\n"@, dn);
    assert(rest.subrange(0, dn) =~= d);
    assert(crate::recover::cut_at(rest, "\n\n"@) == Some(d));
    assert(crate::recover::project_extract(w) == Some(d));
    assert(extract_spec(w) == d);
}

} // verus!
