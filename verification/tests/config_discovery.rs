use std::sync::Arc;
use vfs::config::{
    choose_config, config_file_name, contains_text, default_config, ini_candidate_scan,
    pyproject_candidate_scan, scan_pyproject, scan_settles, ConfigScan, Mode,
};
use vfs::path::AbsPath;

#[test]
fn default_config_takes_the_requested_mode() {
    let base = Arc::new(AbsPath::new("/home/user"));
    let c = default_config(None, None, Arc::clone(&base));
    assert_eq!(c.project_options.mode, Mode::Standard);
    assert!(c.config_path.is_none());
    assert_eq!(c.most_probable_base.as_str(), "/home/user");

    let with_mode = default_config(Some(Mode::Mypy), None, base);
    assert_eq!(with_mode.project_options.mode, Mode::Mypy);
}

#[test]
fn candidate_names_in_priority_order() {
    assert_eq!(config_file_name(0), "pyproject.toml");
    assert_eq!(config_file_name(1), "mypy.ini");
    assert_eq!(config_file_name(2), ".mypy.ini");
    assert_eq!(config_file_name(3), "setup.cfg");
}

#[test]
fn first_candidate_with_options_wins() {
    let scans = vec![
        ConfigScan::Missing,
        ConfigScan::Missing,
        ConfigScan::Missing,
        ConfigScan::Found { has_options: true },
    ];
    assert_eq!(choose_config(&scans, false), Ok(Some(3)));

    let scans = vec![
        ConfigScan::Found { has_options: true },
        ConfigScan::Found { has_options: true },
        ConfigScan::Missing,
        ConfigScan::Missing,
    ];
    assert_eq!(choose_config(&scans, false), Ok(Some(0)));
}

#[test]
fn mypy_ini_governs_even_without_options() {
    let scans = vec![
        ConfigScan::Missing,
        ConfigScan::Found { has_options: false },
        ConfigScan::Missing,
        ConfigScan::Missing,
    ];
    assert_eq!(choose_config(&scans, false), Ok(Some(1)));
    // setup.cfg without an options section does not govern
    let scans = vec![
        ConfigScan::Missing,
        ConfigScan::Missing,
        ConfigScan::Missing,
        ConfigScan::Found { has_options: false },
    ];
    assert_eq!(choose_config(&scans, false), Ok(None));
}

#[test]
fn unreadable_candidate_aborts_discovery() {
    let scans = vec![
        ConfigScan::Missing,
        ConfigScan::Unreadable,
        ConfigScan::Found { has_options: true },
        ConfigScan::Missing,
    ];
    assert_eq!(choose_config(&scans, false), Err(1));
}

#[test]
fn zuban_table_falls_back_to_pyproject() {
    let scans = vec![
        ConfigScan::Found { has_options: false },
        ConfigScan::Missing,
        ConfigScan::Missing,
        ConfigScan::Missing,
    ];
    assert_eq!(choose_config(&scans, false), Ok(None));
    assert_eq!(choose_config(&scans, true), Ok(Some(0)));
}

#[test]
fn pyproject_text_is_really_parsed() {
    let with_mypy = "[tool.mypy]\nstrict = true\n";
    let s = scan_pyproject(with_mypy);
    assert!(s.parsed && s.has_mypy_table && !s.has_zuban_table);

    let with_zuban = "[tool.zuban]\nmode = \"strict\"\n";
    let s = scan_pyproject(with_zuban);
    assert!(s.parsed && !s.has_mypy_table && s.has_zuban_table);

    let broken = "[tool.mypy\nstrict =";
    let s = scan_pyproject(broken);
    assert!(!s.parsed && !s.has_mypy_table && !s.has_zuban_table);

    let unrelated = "[build-system]\nrequires = []\n";
    let s = scan_pyproject(unrelated);
    assert!(s.parsed && !s.has_mypy_table && !s.has_zuban_table);
}

#[test]
fn pyproject_candidate_outcomes() {
    assert_eq!(
        pyproject_candidate_scan("[tool.mypy]\n"),
        ConfigScan::Found { has_options: true }
    );
    assert_eq!(
        pyproject_candidate_scan("answer = 42\n"),
        ConfigScan::Found { has_options: false }
    );
    assert_eq!(pyproject_candidate_scan("definitely not toml ["), ConfigScan::Unreadable);
}

#[test]
fn ini_candidates_win_on_a_mypy_section() {
    assert_eq!(
        ini_candidate_scan("[mypy]\nstrict = True\n"),
        ConfigScan::Found { has_options: true }
    );
    assert_eq!(
        ini_candidate_scan("[flake8]\nmax-line-length = 100\n"),
        ConfigScan::Found { has_options: false }
    );
    assert!(contains_text("xx[mypy]yy", "[mypy]"));
    assert!(!contains_text("[mypy", "[mypy]"));
    assert!(contains_text("anything", ""));
}

#[test]
fn settled_scans_end_the_probing() {
    assert!(scan_settles(0, ConfigScan::Unreadable));
    assert!(scan_settles(0, ConfigScan::Found { has_options: true }));
    assert!(!scan_settles(0, ConfigScan::Found { has_options: false }));
    assert!(scan_settles(1, ConfigScan::Found { has_options: false }));
    assert!(scan_settles(2, ConfigScan::Found { has_options: false }));
    assert!(!scan_settles(3, ConfigScan::Found { has_options: false }));
    assert!(!scan_settles(1, ConfigScan::Missing));
}
