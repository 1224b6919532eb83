use rsomics_binned_statistic::{Stat, Statistic};

#[test]
fn names_of_statistics() {
    let all = [
        (Statistic::Mean, "mean"),
        (Statistic::Std, "std"),
        (Statistic::Median, "median"),
        (Statistic::Count, "count"),
        (Statistic::Sum, "sum"),
        (Statistic::Min, "min"),
        (Statistic::Max, "max"),
    ];
    for (s, n) in all {
        assert_eq!(s.name(), n);
    }
}

#[test]
fn choice_selects_statistic_of_same_name() {
    let pairs = [
        (Stat::Mean, Statistic::Mean),
        (Stat::Std, Statistic::Std),
        (Stat::Median, Statistic::Median),
        (Stat::Count, Statistic::Count),
        (Stat::Sum, Statistic::Sum),
        (Stat::Min, Statistic::Min),
        (Stat::Max, Statistic::Max),
    ];
    for (c, s) in pairs {
        assert_eq!(Statistic::from(c), s);
        let t: Statistic = c.into();
        assert_eq!(t.name(), s.name());
    }
}
