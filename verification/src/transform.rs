//! Turning a worksheet into a file of another format.

use crate::paths::{
    is_directory, is_part, law_extension_is_replaced, with_extension, with_extension_of,
};
use vstd::prelude::*;

verus! {

/// The formats that a worksheet can be turned into.
#[derive(Debug, Clone, Copy, PartialEq, Eq, Hash, Structural)]
pub enum Format {
    Csv,
    Parquet,
}

/// The extension of a format's files.
pub open spec fn extension_of(format: Format) -> Seq<char> {
    match format {
        Format::Csv => "csv"@,
        Format::Parquet => "parquet"@,
    }
}

/// The path of the file to be written.
pub open spec fn written_path(format: Format, path: Seq<char>, output: Option<Seq<char>>) -> Seq<
    char,
> {
    with_extension_of(
        match output {
            Some(o) => o,
            None => path,
        },
        extension_of(format),
    )
}

/// The file to be written has the extension of its format, `csv` or `parquet`, in place of
/// the one that it is asked for with, or of that of the workbook; it lies where the file that
/// is asked for lies, or the workbook where none is asked for.
pub proof fn law_written_files(
    dir: Seq<char>,
    stem: Seq<char>,
    old_extension: Seq<char>,
    other: Seq<char>,
)
    requires
        is_directory(dir),
        is_part(stem),
        stem != seq!['.'],
        !old_extension.contains('/'),
        !old_extension.contains('.'),
    ensures
        ({
            let file = dir + (stem + seq!['.'] + old_extension);
            let csv = dir + stem + seq!['.'] + seq!['c', 's', 'v'];
            let parquet = dir + stem + seq!['.'] + seq!['p', 'a', 'r', 'q', 'u', 'e', 't'];
            &&& written_path(Format::Csv, file, None) == csv
            &&& written_path(Format::Csv, other, Some(file)) == csv
            &&& written_path(Format::Parquet, file, None) == parquet
            &&& written_path(Format::Parquet, other, Some(file)) == parquet
        }),
{
    reveal_strlit("csv");
    reveal_strlit("parquet");
    assert("csv"@ =~= seq!['c', 's', 'v']);
    assert("parquet"@ =~= seq!['p', 'a', 'r', 'q', 'u', 'e', 't']);
    law_extension_is_replaced(dir, stem, old_extension, "csv"@);
    law_extension_is_replaced(dir, stem, old_extension, "parquet"@);
}

/// An optional path, as contracts speak of it.
pub open spec fn path_text(path: Option<&str>) -> Option<Seq<char>> {
    match path {
        Some(p) => Some(p@),
        None => None,
    }
}

/// The path of the file to be written: the one that is asked for, else that of the
/// workbook, with the extension of the format.
pub fn output_path(format: Format, path: &str, output: Option<&str>) -> (written: String)
    ensures
        written@ == written_path(format, path@, path_text(output)),
{
    let extension = match format {
        Format::Csv => "csv",
        Format::Parquet => "parquet",
    };
    match output {
        Some(o) => with_extension(o, extension),
        None => with_extension(path, extension),
    }
}

} // verus!
