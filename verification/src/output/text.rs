//! The text output: a report for people to read.

use vstd::prelude::*;
use crate::analyzer::{entry_views, AnalysisResult, FileEntry, FileEntryView};
use crate::text::{decimal, push_decimal, text_views};

verus! {

/// The line of one warning.
pub open spec fn warning_line(warning: Seq<char>) -> Seq<char> {
    "  - "@ + warning + "\n"@
}

/// The lines of the warnings, in order.
pub open spec fn warning_lines(warnings: Seq<Seq<char>>) -> Seq<char>
    decreases warnings.len(),
{
    if warnings.len() == 0 {
        Seq::empty()
    } else {
        warning_lines(warnings.drop_last()) + warning_line(warnings.last())
    }
}

/// The line of one record: depth, size and path, and for a link an arrow and
/// the target where it is known.
pub open spec fn entry_line(entry: FileEntryView) -> Seq<char> {
    "  [Depth "@ + decimal(entry.depth) + "] "@ + decimal(entry.size) + " bytes: "@ + entry.path
        + if entry.is_symlink {
        " -> "@
    } else {
        Seq::empty()
    } + match entry.target {
        Some(target) => target,
        None => Seq::empty(),
    } + "\n"@
}

/// The lines of the records, in order.
pub open spec fn entry_lines(entries: Seq<FileEntryView>) -> Seq<char>
    decreases entries.len(),
{
    if entries.len() == 0 {
        Seq::empty()
    } else {
        entry_lines(entries.drop_last()) + entry_line(entries.last())
    }
}

/// The head of the report: the totals. `megabytes` is the total size in
/// megabytes as it is to be shown.
pub open spec fn summary(
    total_size: nat,
    megabytes: Seq<char>,
    files: nat,
    directories: nat,
    symlinks: nat,
) -> Seq<char> {
    "=== File Analysis Results ===\n\n"@ + "Total Size: "@ + decimal(total_size) + " bytes ("@
        + megabytes + " MB)\n"@ + "File Count: "@ + decimal(files) + "\n"@ + "Directory Count: "@
        + decimal(directories) + "\n"@ + "Symlink Count: "@ + decimal(symlinks) + "\n"@
}

/// The part of the report that says that the analysis is incomplete, if it
/// is.
pub open spec fn incomplete_part(incomplete: bool) -> Seq<char> {
    if incomplete {
        "\n⚠ WARNING: Analysis incomplete (limits reached)\n"@
    } else {
        Seq::empty()
    }
}

/// The part of the report that lists the warnings, if there are any.
pub open spec fn warnings_part(warnings: Seq<Seq<char>>) -> Seq<char> {
    if warnings.len() == 0 {
        Seq::empty()
    } else {
        "\n=== Warnings ("@ + decimal(warnings.len()) + ") ===\n"@ + warning_lines(warnings)
    }
}

/// The part of the report that lists the records, if there are any.
pub open spec fn entries_part(entries: Seq<FileEntryView>) -> Seq<char> {
    if entries.len() == 0 {
        Seq::empty()
    } else {
        "\n=== Files ("@ + decimal(entries.len()) + ") ===\n"@ + entry_lines(entries)
    }
}

/// The whole report: the totals, the mark of an incomplete analysis, the
/// warnings, the records.
pub open spec fn report_text(result: AnalysisResult, megabytes: Seq<char>) -> Seq<char> {
    summary(
        result.total_size as nat,
        megabytes,
        result.file_count as nat,
        result.directory_count as nat,
        result.symlink_count as nat,
    ) + incomplete_part(result.incomplete) + warnings_part(text_views(result.warnings@))
        + entries_part(entry_views(result.entries@))
}

/// Formats a result as text.
pub struct TextFormatter;

impl TextFormatter {
    fn push_count(out: &mut String, label: &str, n: u64)
        ensures
            final(out)@ == old(out)@ + label@ + decimal(n as nat) + "\n"@,
    {
        out.append(label);
        push_decimal(out, n);
        out.append("\n");
    }

    fn push_entry(out: &mut String, entry: &FileEntry)
        ensures
            final(out)@ == old(out)@ + entry_line(entry@),
    {
        let ghost before = out@;
        out.append("  [Depth ");
        push_decimal(out, entry.depth as u64);
        out.append("] ");
        push_decimal(out, entry.size);
        out.append(" bytes: ");
        out.append(entry.path.as_str());
        if entry.is_symlink {
            out.append(" -> ");
        }
        match &entry.target {
            Some(target) => {
                out.append(target.as_str());
            },
            None => {},
        }
        out.append("\n");
        assert(out@ =~= before + entry_line(entry@));
    }

    fn push_summary(out: &mut String, result: &AnalysisResult, megabytes: &str)
        ensures
            final(out)@ == old(out)@ + summary(
                result.total_size as nat,
                megabytes@,
                result.file_count as nat,
                result.directory_count as nat,
                result.symlink_count as nat,
            ),
    {
        let ghost before = out@;
        out.append("=== File Analysis Results ===\n\n");
        out.append("Total Size: ");
        push_decimal(out, result.total_size);
        out.append(" bytes (");
        out.append(megabytes);
        out.append(" MB)\n");
        let ghost size_line = out@;
        Self::push_count(out, "File Count: ", result.file_count as u64);
        Self::push_count(out, "Directory Count: ", result.directory_count as u64);
        Self::push_count(out, "Symlink Count: ", result.symlink_count as u64);
        assert(size_line =~= before + ("=== File Analysis Results ===\n\n"@ + "Total Size: "@
            + decimal(result.total_size as nat) + " bytes ("@ + megabytes@ + " MB)\n"@));
        assert(out@ =~= before + summary(
            result.total_size as nat,
            megabytes@,
            result.file_count as nat,
            result.directory_count as nat,
            result.symlink_count as nat,
        ));
    }

    fn push_warnings(out: &mut String, warnings: &Vec<String>)
        ensures
            final(out)@ == old(out)@ + warnings_part(text_views(warnings@)),
    {
        let ghost before = out@;
        let n = warnings.len();
        if n == 0 {
            assert(out@ =~= before + warnings_part(text_views(warnings@)));
            return ;
        }
        out.append("\n=== Warnings (");
        push_decimal(out, n as u64);
        out.append(") ===\n");
        let ghost title = out@;
        assert(title =~= before + ("\n=== Warnings ("@ + decimal(n as nat) + ") ===\n"@));
        for i in 0..n
            invariant
                n == warnings@.len(),
                out@ == title + warning_lines(text_views(warnings@).take(i as int)),
        {
            let ghost seen = text_views(warnings@).take(i as int);
            let ghost next = text_views(warnings@).take(i + 1);
            let ghost so_far = out@;
            assert(next.drop_last() =~= seen);
            assert(next.last() == warnings@[i as int]@);
            out.append("  - ");
            out.append(warnings[i].as_str());
            out.append("\n");
            assert(out@ =~= so_far + warning_line(warnings@[i as int]@));
            assert(out@ =~= title + warning_lines(next));
        }
        assert(text_views(warnings@).take(n as int) =~= text_views(warnings@));
        assert(out@ =~= before + warnings_part(text_views(warnings@)));
    }

    fn push_entries(out: &mut String, entries: &Vec<FileEntry>)
        ensures
            final(out)@ == old(out)@ + entries_part(entry_views(entries@)),
    {
        let ghost before = out@;
        let n = entries.len();
        if n == 0 {
            assert(out@ =~= before + entries_part(entry_views(entries@)));
            return ;
        }
        out.append("\n=== Files (");
        push_decimal(out, n as u64);
        out.append(") ===\n");
        let ghost title = out@;
        assert(title =~= before + ("\n=== Files ("@ + decimal(n as nat) + ") ===\n"@));
        for i in 0..n
            invariant
                n == entries@.len(),
                out@ == title + entry_lines(entry_views(entries@).take(i as int)),
        {
            let ghost seen = entry_views(entries@).take(i as int);
            let ghost next = entry_views(entries@).take(i + 1);
            assert(next.drop_last() =~= seen);
            assert(next.last() == entries@[i as int]@);
            Self::push_entry(out, &entries[i]);
            assert(out@ =~= title + entry_lines(next));
        }
        assert(entry_views(entries@).take(n as int) =~= entry_views(entries@));
        assert(out@ =~= before + entries_part(entry_views(entries@)));
    }

    /// The report of a result. `megabytes` is the total size in megabytes as
    /// it is to be shown.
    pub fn report(&self, result: &AnalysisResult, megabytes: &str) -> (text: String)
        ensures
            text@ == report_text(*result, megabytes@),
    {
        let mut out = String::new();
        Self::push_summary(&mut out, result, megabytes);
        if result.incomplete {
            out.append("\n⚠ WARNING: Analysis incomplete (limits reached)\n");
        }
        Self::push_warnings(&mut out, &result.warnings);
        Self::push_entries(&mut out, &result.entries);
        out
    }
}

} // verus!
