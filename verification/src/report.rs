//! What is told about links that do not count and images that could not be embedded.
use vstd::prelude::*;
use crate::check;
use crate::embed;
use crate::embed::EmbedError;
use crate::image;
use crate::image::CheckEntry;
use crate::image::CheckInfo;
use crate::link;
use crate::link::LinkTarget;
use crate::text;

verus! {

/// Those of the checked image links that do not count.
pub open spec fn problems(checked: Seq<CheckEntry>) -> Seq<CheckEntry>
    decreases checked.len(),
{
    if checked.len() == 0 {
        seq![]
    } else {
        let front = problems(checked.drop_last());
        if checked.last().error is Some {
            front.push(checked.last())
        } else {
            front
        }
    }
}

/// The line about an image link that does not count.
pub open spec fn problem_line(e: CheckEntry) -> Seq<char> {
    "row: "@ + text::decimal(e.row_num as nat) + ", link: "@ + link::shown(e.link) + ", error: "@
        + check::fault_text(e.error->0) + ", line: "@ + e.line + "\n"@
}

/// The lines about image links that do not count.
pub open spec fn problem_lines(v: Seq<CheckEntry>) -> Seq<char>
    decreases v.len(),
{
    if v.len() == 0 {
        seq![]
    } else {
        problem_lines(v.drop_last()) + problem_line(v.last())
    }
}

/// Counts the checked image links that do not count.
pub fn problem_count(infos: &Vec<CheckInfo>) -> (res: usize)
    ensures
        res == problems(image::entries(infos@)).len(),
{
    let ghost all = image::entries(infos@);
    let mut count: usize = 0;
    let mut k: usize = 0;
    while k < infos.len()
        invariant
            all == image::entries(infos@),
            k <= infos.len(),
            count <= k,
            count == problems(all.take(k as int)).len(),
        decreases infos.len() - k,
    {
        proof {
            assert(all.take(k + 1).drop_last() =~= all.take(k as int));
            assert(all.take(k + 1).last() == infos@[k as int]@);
        }
        if infos[k].error.is_some() {
            count += 1;
        }
        k += 1;
    }
    assert(all.take(k as int) =~= all);
    count
}

/// Tells which image links of the document shown as `path` do not count, and why.
pub fn problem_report(path: &str, infos: &Vec<CheckInfo>) -> (res: String)
    ensures
        res@ == "`"@ + path@ + "` has "@ + text::decimal(
            problems(image::entries(infos@)).len(),
        ) + " problems:\n"@ + problem_lines(problems(image::entries(infos@))),
{
    let ghost all = image::entries(infos@);
    let mut s = "`".to_string();
    s.append(path);
    s.append("` has ");
    s.append(text::to_decimal(problem_count(infos) as u64).as_str());
    s.append(" problems:\n");
    let ghost head = s@;
    let mut k: usize = 0;
    assert(s@ =~= head + problem_lines(problems(all.take(0))));
    while k < infos.len()
        invariant
            all == image::entries(infos@),
            k <= infos.len(),
            s@ == head + problem_lines(problems(all.take(k as int))),
        decreases infos.len() - k,
    {
        let info: &CheckInfo = &infos[k];
        let ghost before = s@;
        let ghost front = problems(all.take(k as int));
        proof {
            assert(all.take(k + 1).drop_last() =~= all.take(k as int));
            assert(all.take(k + 1).last() == info@);
        }
        if let Some(e) = &info.error {
            s.append("row: ");
            s.append(text::to_decimal(info.row_num as u64).as_str());
            s.append(", link: ");
            s.append(info.link.to_string().as_str());
            s.append(", error: ");
            s.append(e.to_string().as_str());
            s.append(", line: ");
            s.append(info.line.as_str());
            s.append("\n");
            proof {
                assert(s@ =~= before + problem_line(info@));
                assert(front.push(info@).drop_last() =~= front);
                assert(head + (problem_lines(front) + problem_line(info@)) =~= before
                    + problem_line(info@));
            }
        }
        k += 1;
    }
    assert(all.take(k as int) =~= all);
    s
}

/// The line about an image that could not be embedded.
pub open spec fn error_line(e: (LinkTarget, embed::Cause)) -> Seq<char> {
    "link: "@ + link::shown(e.0) + ", cause: "@ + embed::cause_text(e.1) + "\n"@
}

/// The lines about images that could not be embedded.
pub open spec fn error_lines(v: Seq<(LinkTarget, embed::Cause)>) -> Seq<char>
    decreases v.len(),
{
    if v.len() == 0 {
        seq![]
    } else {
        error_lines(v.drop_last()) + error_line(v.last())
    }
}

/// Tells which images of the document shown as `path` could not be embedded, and why.
pub fn error_report(path: &str, errors: &Vec<EmbedError>) -> (res: String)
    ensures
        res@ == "found "@ + text::decimal(errors@.len()) + " errors in "@ + path@ + "\n"@
            + error_lines(embed::errors_view(errors@)),
{
    let ghost all = embed::errors_view(errors@);
    let mut s = "found ".to_string();
    s.append(text::to_decimal(errors.len() as u64).as_str());
    s.append(" errors in ");
    s.append(path);
    s.append("\n");
    let ghost head = s@;
    let mut k: usize = 0;
    assert(s@ =~= head + error_lines(all.take(0)));
    while k < errors.len()
        invariant
            all == embed::errors_view(errors@),
            k <= errors.len(),
            s@ == head + error_lines(all.take(k as int)),
        decreases errors.len() - k,
    {
        let e: &EmbedError = &errors[k];
        let ghost before = s@;
        let ghost front = all.take(k as int);
        s.append("link: ");
        s.append(e.link.to_string().as_str());
        s.append(", cause: ");
        s.append(e.cause.to_string().as_str());
        s.append("\n");
        proof {
            assert(s@ =~= before + error_line(e@));
            assert(all.take(k + 1).drop_last() =~= front);
            assert(all.take(k + 1).last() == e@);
            assert(head + (error_lines(front) + error_line(e@)) =~= before + error_line(e@));
        }
        k += 1;
    }
    assert(all.take(k as int) =~= all);
    s
}

} // verus!
