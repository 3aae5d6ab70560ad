use linecount::counts::count_lines;
use linecount::counts::extension_of;
use linecount::counts::CodeInfo;
use linecount::totals::Totals;

fn percent(info: CodeInfo) -> String {
    format!("{:.2}", 100. * info.blanks as f64 / info.lines as f64)
}

fn add_file(totals: &mut Totals, name: &str, content: &str) {
    let info = count_lines(content.as_bytes());
    assert!(totals.fits(info));
    totals.record(extension_of(name), info);
}

fn info(lines: u64, blanks: u64) -> CodeInfo {
    CodeInfo { lines, blanks }
}

fn sorted(mut r: Vec<(Option<String>, CodeInfo)>) -> Vec<(Option<String>, CodeInfo)> {
    r.sort_by(|a, b| a.0.cmp(&b.0));
    r
}

#[test]
fn ungrouped_total_of_two_files() {
    let mut t = Totals::new(false);
    add_file(&mut t, "a.txt", "x\n\ny\n");
    add_file(&mut t, "b.txt", "");
    let r = t.report();
    assert_eq!(r, vec![(None, info(3, 1))]);
    assert_eq!(percent(r[0].1), "33.33");
}

#[test]
fn grouped_by_extension_with_miscellaneous() {
    let mut t = Totals::new(true);
    add_file(&mut t, "x.py", "a\n\nb\n\nc\n");
    add_file(&mut t, "y.py", "z\n");
    add_file(&mut t, "README", "\n\n\n\n");
    let r = t.report();
    assert_eq!(
        r,
        vec![
            (Some("py".to_string()), info(6, 2)),
            (Some("miscellaneous".to_string()), info(4, 4)),
        ]
    );
    assert_eq!(percent(r[0].1), "33.33");
    assert_eq!(percent(r[1].1), "100.00");
}

#[test]
fn empty_tree_has_no_numeric_percentage() {
    let t = Totals::new(false);
    let r = t.report();
    assert_eq!(r, vec![(None, info(0, 0))]);
    let p = 100. * r[0].1.blanks as f64 / r[0].1.lines as f64;
    assert!(p.is_nan());
    assert_eq!(percent(r[0].1), "NaN");
}

#[test]
fn miscellaneous_bucket_only_when_used() {
    let mut t = Totals::new(true);
    add_file(&mut t, "m.rs", "fn\n");
    assert_eq!(t.report(), vec![(Some("rs".to_string()), info(1, 0))]);
    let empty = Totals::new(true);
    assert!(empty.report().is_empty());
}

#[test]
fn miscellaneous_bucket_reported_even_with_zero_lines() {
    let mut t = Totals::new(true);
    add_file(&mut t, "LICENSE", "");
    assert_eq!(t.report(), vec![(Some("miscellaneous".to_string()), info(0, 0))]);
}

#[test]
fn buckets_in_order_of_first_sight() {
    let mut t = Totals::new(true);
    add_file(&mut t, "a.rs", "1\n");
    add_file(&mut t, "b.md", "\n");
    add_file(&mut t, "c.rs", "\n2\n");
    assert_eq!(
        t.report(),
        vec![(Some("rs".to_string()), info(3, 1)), (Some("md".to_string()), info(1, 1))]
    );
    assert_eq!(t.total(), info(4, 2));
}

#[test]
fn grouped_and_ungrouped_totals_agree() {
    let files = [("a.rs", "1\n\n"), ("b", "\n"), ("c.md", "x"), ("d.rs", "\n\n\ny\n")];
    let mut on = Totals::new(true);
    let mut off = Totals::new(false);
    for (name, content) in files.iter() {
        add_file(&mut on, name, content);
        add_file(&mut off, name, content);
    }
    let mut sum = CodeInfo::new();
    for (_, i) in on.report() {
        sum.add(i);
    }
    assert_eq!(off.report(), vec![(None, sum)]);
    assert_eq!(sum, info(8, 5));
    assert_eq!(on.total(), off.total());
}

#[test]
fn merge_order_does_not_change_counts() {
    let files = [("a.rs", "1\n\n"), ("b", "\n"), ("c.md", "x"), ("d.rs", "\n\n\ny\n"), ("e.md", "\n")];
    let mut forward = Totals::new(true);
    for (name, content) in files.iter() {
        add_file(&mut forward, name, content);
    }
    let mut backward = Totals::new(true);
    for (name, content) in files.iter().rev() {
        add_file(&mut backward, name, content);
    }
    assert_eq!(sorted(forward.report()), sorted(backward.report()));
    assert_eq!(forward.total(), backward.total());
}

#[test]
fn overflowing_merge_is_refused() {
    let mut t = Totals::new(false);
    t.record(None, info(u64::MAX - 1, 0));
    assert!(t.fits(info(1, 1)));
    assert!(!t.fits(info(2, 0)));
}
