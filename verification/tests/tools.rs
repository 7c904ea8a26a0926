use stream_xlsx::ai_iter::{lazy_rows, RowGrouper};
use stream_xlsx::error::ErrorKind;
use stream_xlsx::excel_types::{Cell, Data, ExcelDateTime};
use stream_xlsx::float::Float;
use stream_xlsx::generate_test_xlsx::{addition_cols, header_names, plan_row, Draws, Planned};
use stream_xlsx::paths::{join_path, with_extension, System};
use stream_xlsx::read_iter::{column_count, Col, Cols, FromData};
use stream_xlsx::shell_completion::{
    already_sourced, detect_shell, lines_to_add, powershell_profile_path, Shell, ShellConfig,
};
use stream_xlsx::testmode::{batch_shown, batches_read, TestMod};
use stream_xlsx::transform::{output_path, Format};
use stream_xlsx::typed_col::AnyValue;

#[test]
fn one_test() {
    let n = 1;
    for i in 0..n {
        println!("{}", i)
    }
}

fn cell(row: u32, col: u32, n: i64) -> Cell<Data> {
    Cell::new((row, col), Data::Int(n))
}

#[test]
fn test_ai_iter() {
    let rows = lazy_rows(vec![cell(0, 0, 1), cell(0, 1, 2), cell(3, 0, 3), cell(4, 0, 4), cell(4, 2, 5)]);
    let shape: Vec<(u32, usize)> =
        rows.iter().map(|row| (row[0].get_position().0, row.len())).collect();
    assert_eq!(shape, vec![(0, 2), (3, 1), (4, 2)]);
    assert!(lazy_rows::<Data>(Vec::new()).is_empty());
    let mut grouper = RowGrouper::new();
    assert!(grouper.offer(cell(0, 0, 1)).is_none());
    assert_eq!(grouper.offer(cell(1, 0, 1)).unwrap().len(), 1);
    assert_eq!(grouper.finish().unwrap().len(), 1);
    assert!(RowGrouper::<Data>::new().finish().is_none());
}

#[test]
fn test_cols() {
    let mut cols: Cols<AnyValue> = Cols::new(2);
    assert_eq!(cols.vecs.len(), 3);
    cols.push_cell(Cell::new((0, 0), Data::String("name".to_string()))).unwrap();
    cols.push_cell(Cell::new((0, 1), Data::Int(5))).unwrap();
    cols.push_cell(Cell::new((2, 0), Data::Bool(true))).unwrap();
    cols.push_cell(Cell::new((1, 4), Data::Int(9))).unwrap();
    cols.clean_for_iter();
    assert_eq!(cols.max_x, 2);
    assert_eq!(cols.vecs.len(), 5);
    let shown = vec![String::new(), "5".to_string()];
    let frame = cols.into_dataframe(true, &shown);
    let names: Vec<&str> = frame.iter().map(|c| c.name.as_str()).collect();
    assert_eq!(names, vec!["name", "5", "unknown", "unknown", "unknown"]);
    assert_eq!(frame[0].values, vec![AnyValue::Null, AnyValue::Boolean(true)]);
    assert_eq!(frame[1].values, vec![AnyValue::Null, AnyValue::Null]);
    assert_eq!(frame[4].values, vec![AnyValue::Int64(9), AnyValue::Null]);
    assert_eq!(cols.vecs.len(), 2);
    assert!(cols.offer(cell(3, 0, 1)).is_some());
    assert!(cols.offer(cell(1, 0, 1)).is_none());
    let frame = cols.into_dataframe(true, &shown);
    assert_eq!(frame[0].name, "name");
    assert_eq!(frame[0].values, vec![AnyValue::Null, AnyValue::Int64(1)]);
    assert_eq!(column_count(10, 4), 4);
    assert_eq!(column_count(3, 4), 3);
    let mut unnamed: Cols<AnyValue> = Cols::new(1);
    unnamed.push_cell(cell(0, 0, 1)).unwrap();
    assert_eq!(unnamed.into_dataframe(false, &shown)[0].name, "col_0");
}

#[test]
fn names_and_the_waiting_cell_outlast_a_batch() {
    let mut cols: Cols<AnyValue> = Cols::new(1);
    cols.headers.push("given".to_string());
    cols.cell_cache = Some(Cell::new((7, 0), Data::Int(3)));
    cols.push_cell(cell(0, 0, 1)).unwrap();
    let frame = cols.into_dataframe(false, &vec![String::new()]);
    assert_eq!(frame[0].name, "given");
    assert_eq!(cols.headers, vec!["given", "col_0"]);
    assert_eq!(cols.cell_cache.unwrap().get_position(), (7, 0));
}

#[test]
fn a_column_takes_its_own_cells_only() {
    let mut col: Col<Data> = Col::new(3);
    let refused = col.push_cell(cell(0, 4, 1)).unwrap_err();
    assert_eq!(refused.kind, ErrorKind::WrongColumn);
    assert_eq!(refused.message, "列序号错误: 期望 3, 实际 4");
    col.push_cell(cell(2, 3, 7)).unwrap();
    assert_eq!(col.vec, vec![Data::Empty, Data::Empty, Data::Int(7)]);
    col.push_cell(cell(1, 3, 8)).unwrap();
    assert_eq!(col.vec[3], Data::Int(8));
}

#[test]
fn dates_go_through_the_calendar() {
    let nanos = |n: i64| {
        let date = ExcelDateTime::new(Float::OfInt(n), false);
        match <AnyValue as FromData>::from_data(&Data::DateTime(date)) {
            AnyValue::Datetime(nanos) => nanos,
            other => panic!("{:?}", other),
        }
    };
    assert_eq!(nanos(25_569), 0);
    assert_eq!(nanos(45_352), 1_709_251_200_000_000_000);
    assert_eq!(nanos(1), -25_567 * 86_400_000_000_000);
    assert_eq!(nanos(60), 0);
    assert_eq!(nanos(2_958_465), 0);
    assert_eq!(
        <AnyValue as FromData>::from_data(&Data::DurationIso("PT1S".to_string())),
        AnyValue::StringOwned("PT1S".to_string())
    );
}

#[test]
fn paths_are_joined_and_given_extensions() {
    for (base, rest) in [("/home/u", ".bashrc"), ("/home/u/", "a/b"), ("", "x"), ("/", "y")] {
        let expected = std::path::Path::new(base).join(rest);
        assert_eq!(join_path(base, rest, System::Unix), expected.to_str().unwrap());
    }
    assert_eq!(join_path("C:\\Users\\u", "Documents/x", System::Windows), "C:\\Users\\u\\Documents/x");
    assert_eq!(join_path("C:", "x", System::Windows), "C:x");
    for path in [
        "data.xlsx", "/tmp/a.b/data", "/tmp/a.b/data.tar.gz", ".hidden", "dir/.x.y", "dir/", "a/..",
        "a/.", "", "/", "..", "x.", "wörk.xlsx", "a//b.c//", "./.", "...", "a/b.xlsx/.",
    ] {
        let expected = std::path::Path::new(path).with_extension("csv");
        assert_eq!(with_extension(path, "csv"), expected.to_str().unwrap(), "{}", path);
    }
    assert_eq!(output_path(Format::Csv, "in/book.xlsx", None), "in/book.csv");
    assert_eq!(output_path(Format::Parquet, "in/book.xlsx", Some("out/data")), "out/data.parquet");
}

#[test]
fn shells_are_detected_by_name() {
    assert_eq!(detect_shell("/bin/bash"), Ok(Shell::Bash));
    assert_eq!(detect_shell("/usr/bin/zsh"), Ok(Shell::Zsh));
    assert_eq!(detect_shell("fish"), Ok(Shell::Fish));
    assert_eq!(detect_shell("/opt/elvish/"), Ok(Shell::Elvish));
    assert_eq!(detect_shell("/bin/tcsh"), Err("tcsh".to_string()));
    assert_eq!(detect_shell("/"), Err(String::new()));
}

#[test]
fn every_shell_has_its_places() {
    let config = |shell: Shell| ShellConfig::for_shell(shell, "/home/u", System::Unix, (false, false));
    let bash = config(Shell::Bash);
    assert_eq!(bash.completion_path, "/home/u/.local/share/sxlsx/completions/sxlsx.bash");
    assert_eq!(bash.rc_path.as_deref(), Some("/home/u/.bashrc"));
    assert_eq!(
        bash.source_line,
        "# sxlsx shell completion\n[ -f \"/home/u/.local/share/sxlsx/completions/sxlsx.bash\" ] && \
         source \"/home/u/.local/share/sxlsx/completions/sxlsx.bash\""
    );
    assert_eq!(bash.reload_hint, "source ~/.bashrc");
    let zsh = config(Shell::Zsh);
    assert_eq!(zsh.completion_path, "/home/u/.local/share/sxlsx/completions/_sxlsx");
    assert_eq!(
        zsh.source_line,
        "# sxlsx shell completion\nfpath+=(\"/home/u/.local/share/sxlsx/completions\")\nautoload \
         -Uz compinit && compinit"
    );
    let fish = config(Shell::Fish);
    assert_eq!(fish.completion_path, "/home/u/.config/fish/completions/sxlsx.fish");
    assert_eq!(fish.rc_path, None);
    assert_eq!(fish.source_line, "");
    let power = config(Shell::PowerShell);
    assert_eq!(power.completion_path, "/home/u/.local/share/powershell/Completions/sxlsx.ps1");
    assert_eq!(power.rc_path, None);
    assert_eq!(power.reload_hint, ". $PROFILE");
    let elvish = config(Shell::Elvish);
    assert_eq!(elvish.rc_path.as_deref(), Some("/home/u/.elvish/rc.elv"));
    assert_eq!(
        elvish.source_line,
        "# sxlsx shell completion\neval (cat \"/home/u/.local/share/sxlsx/completions/sxlsx.elv\")"
    );
    let windows = ShellConfig::for_shell(Shell::PowerShell, "C:\\u", System::Windows, (false, true));
    assert_eq!(windows.completion_path, "C:\\u\\Documents/PowerShell/Completions\\sxlsx.ps1");
    assert_eq!(
        windows.rc_path.as_deref(),
        Some("C:\\u\\Documents/WindowsPowerShell/Microsoft.PowerShell_profile.ps1")
    );
    assert_eq!(
        powershell_profile_path("C:\\u", System::Windows, (false, false)).as_deref(),
        Some("C:\\u\\Documents/PowerShell/Microsoft.PowerShell_profile.ps1")
    );
}

#[test]
fn lines_are_added_once() {
    let config = ShellConfig::for_shell(Shell::Elvish, "/h", System::Unix, (false, false));
    let lines = lines_to_add(&config, Some("# mine\n")).unwrap();
    assert_eq!(lines, format!("\n{}\n", config.source_line));
    assert_eq!(lines_to_add(&config, Some(&lines)), None);
    assert_eq!(lines_to_add(&config, None).unwrap(), lines);
    let fish = ShellConfig::for_shell(Shell::Fish, "/h", System::Unix, (false, false));
    assert_eq!(lines_to_add(&fish, Some("")), None);
    assert!(already_sourced(Some("a sxlsx b"), "sxlsx"));
    assert!(!already_sourced(None, "sxlsx"));
}

#[test]
fn rows_of_random_values_are_planned() {
    let draws = Draws {
        int_val: -3,
        text: 77,
        flag: true,
        date: (2001, 2, 3),
        time: (4, 15, 6),
        duration: (99, 0, 7),
        filled: false,
        extra: vec![8, 9],
    };
    let cells = plan_row(12, &draws);
    assert_eq!(cells.len(), 9);
    assert!(matches!(cells[0], Planned::Int(-3)));
    assert!(matches!(cells[1], Planned::Float));
    assert!(matches!(&cells[2], Planned::Text(t) if t == "row_12_rnd77"));
    assert!(matches!(cells[3], Planned::Bool(true)));
    assert!(matches!(&cells[4], Planned::DateTime(t) if t == "2001-02-03 04:15:06"));
    assert!(matches!(&cells[5], Planned::Text(t) if t == "PT99H0M7S"));
    assert!(matches!(cells[6], Planned::Blank));
    assert!(matches!(&cells[8], Planned::Text(t) if t == "row_12_rnd9"));
    assert_eq!(header_names().len(), 7);
    assert_eq!(addition_cols(3), 0);
    assert_eq!(addition_cols(9), 2);
}

#[test]
fn trials_show_the_first_batches() {
    assert_eq!(batches_read(25, false), 10);
    assert_eq!(batches_read(25, true), 25);
    assert_eq!(batches_read(4, false), 4);
    assert!(batch_shown(1));
    assert!(batch_shown(10));
    assert!(!batch_shown(11));
    assert_ne!(TestMod::Debug, TestMod::Count);
}
