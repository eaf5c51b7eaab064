use excel_to_parquet::naming::{
    build_parquet_name, day_from_filename, now_vn_fields, sanitize_stem, stamp_string, year4,
    TimeFields,
};

fn fields() -> TimeFields {
    TimeFields {
        year: 2024,
        month: 3,
        day: 7,
        hour: 9,
        minute: 5,
        second: 30,
    }
}

#[test]
fn stem_keeps_ascii_alphanumerics_only() {
    assert_eq!(sanitize_stem("orders 2024-01!"), "orders_2024_01_");
    assert_eq!(sanitize_stem("plain"), "plain");
    assert_eq!(sanitize_stem("déjà"), "d_j_");
}

#[test]
fn year_field_is_zero_padded() {
    assert_eq!(year4(2024), "2024");
    assert_eq!(year4(99), "0099");
    assert_eq!(year4(0), "0000");
    assert_eq!(year4(-5), "-005");
}

#[test]
fn timestamp_field_layout() {
    assert_eq!(stamp_string(&fields()), "07032024_090530");
}

#[test]
fn parquet_name_embeds_stem_stamp_and_mtime() {
    assert_eq!(
        build_parquet_name("foo bar", &fields(), 1700000000123),
        "foo_bar_07032024_090530_1700000000123.parquet"
    );
}

#[test]
fn parquet_names_differ_across_mtimes() {
    let a = build_parquet_name("foo", &fields(), 1);
    let b = build_parquet_name("foo", &fields(), 2);
    assert_ne!(a, b);
}

#[test]
fn clock_reading_is_well_formed() {
    let f = now_vn_fields();
    assert!((1..=12).contains(&f.month));
    assert!((1..=31).contains(&f.day));
    assert!(f.hour <= 23);
    assert!(f.minute <= 59);
    assert!(f.second <= 59);
}

#[test]
fn vn_clock_is_seven_hours_ahead_of_utc() {
    let f = now_vn_fields();
    let utc = time::OffsetDateTime::now_utc();
    let vn = utc.to_offset(time::UtcOffset::from_hms(7, 0, 0).unwrap());
    // Ran back to back, the two readings agree on the hour except at
    // an hour boundary; accept either of the two neighbouring hours.
    let h = vn.hour();
    assert!(f.hour == h || (h + 24 - f.hour) % 24 == 1);
}

#[test]
fn filename_date_is_extracted() {
    assert_eq!(
        day_from_filename("orders_admin_05_11_2024.xlsx").as_deref(),
        Some("2024-11-05")
    );
    assert_eq!(
        day_from_filename("x_31_01_1999.XLSB").as_deref(),
        Some("1999-01-31")
    );
}

#[test]
fn filename_without_date_pattern_is_rejected() {
    assert_eq!(day_from_filename("orders.xlsx"), None);
    assert_eq!(day_from_filename("orders_1_11_2024.xlsx"), None);
    assert_eq!(day_from_filename("orders_05_11_2024.csv"), None);
    assert_eq!(day_from_filename("short"), None);
    assert_eq!(day_from_filename("orders_05x11_2024.xlsx"), None);
}
