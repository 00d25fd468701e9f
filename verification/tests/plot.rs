use spam_stats::calendar::Date;
use spam_stats::order::Scale;
use spam_stats::plot::{
    buffer_size, group_by_date, try_into_cartesian_range, visible_slices, Color, Quantity, Slice,
    IMAGE_HEIGHT, IMAGE_WIDTH, PIXEL_SIZE,
};
use spam_stats::statistics::Rate;

fn slice(label: &str, color: Color, part: usize, total: usize) -> Slice {
    Slice { label: label.to_string(), color, ratio: Rate { part, total } }
}

#[test]
fn buffer_holds_one_pixel_per_point() {
    assert_eq!(buffer_size(), 600 * 400 * 3);
    assert_eq!(buffer_size(), IMAGE_WIDTH as usize * IMAGE_HEIGHT as usize * PIXEL_SIZE);
}

#[test]
fn into_image_takes_the_title_as_alt_text() {
    let quantity = Quantity {
        name: "Daily Received Spam for example.org".to_string(),
        domain: "Date".to_string(),
        range: "Occurrences".to_string(),
        data: vec![(1, 2usize)],
    };
    let image = quantity.into_image(vec![137, 80, 78, 71]);
    assert_eq!(image.alt, "Daily Received Spam for example.org");
    assert_eq!(image.png, vec![137, 80, 78, 71]);
}

#[test]
fn cartesian_range_of_nothing() {
    assert!(try_into_cartesian_range::<i32, usize>(&vec![]).is_none());
}

#[test]
fn cartesian_range_of_one_point() {
    let range = try_into_cartesian_range(&vec![(3, 9usize)]).unwrap();
    assert_eq!((range.x.min, range.x.max, range.y.min, range.y.max), (3, 3, 9, 9));
}

#[test]
fn cartesian_range_is_the_bounding_box() {
    let points = vec![(0, 5usize), (-4, 7), (9, 0), (2, 7), (-4, 1)];
    let range = try_into_cartesian_range(&points).unwrap();
    assert_eq!((range.x.min, range.x.max, range.y.min, range.y.max), (-4, 9, 0, 7));
}

#[test]
fn cartesian_range_of_dated_rates() {
    let points = vec![
        (Date { days: 738_890 }, Rate { part: 1, total: 2 }),
        (Date { days: 738_886 }, Rate { part: 1, total: 3 }),
        (Date { days: 738_888 }, Rate { part: 3, total: 4 }),
        (Date { days: 738_887 }, Rate { part: 0, total: 9 }),
    ];
    let range = try_into_cartesian_range(&points).unwrap();
    assert_eq!(range.x.min, Date { days: 738_886 });
    assert_eq!(range.x.max, Date { days: 738_890 });
    assert_eq!(range.y.min, Rate { part: 0, total: 9 });
    assert_eq!(range.y.max, Rate { part: 3, total: 4 });
}

#[test]
fn rates_compare_as_fractions() {
    assert!(Rate { part: 1, total: 3 }.less(Rate { part: 1, total: 2 }));
    assert!(!Rate { part: 1, total: 2 }.less(Rate { part: 1, total: 3 }));
    assert!(!Rate { part: 1, total: 2 }.less(Rate { part: 2, total: 4 }));
    assert!(!Rate { part: 2, total: 4 }.less(Rate { part: 1, total: 2 }));
    assert!(Rate { part: 0, total: 1 }.less(Rate { part: 1, total: usize::MAX }));
    assert!(Rate { part: usize::MAX - 1, total: usize::MAX }
        .less(Rate { part: usize::MAX, total: usize::MAX }));
    assert!(!Rate { part: 0, total: 0 }.less(Rate { part: 1, total: 1 }));
    assert!(!Rate { part: 1, total: 1 }.less(Rate { part: 0, total: 0 }));
}

#[test]
fn scales_of_numbers_and_dates() {
    assert!(1i32.less(2));
    assert!(!2i32.less(2));
    assert!((-3i32).less(-2));
    assert!(0usize.less(1));
    assert!(!1usize.less(0));
    assert!(Date { days: 5 }.less(Date { days: 6 }));
    assert!(!Date { days: 6 }.less(Date { days: 6 }));
}

#[test]
fn visible_slices_leave_out_zero_ratios() {
    let slices = vec![
        slice("No Action (5, 50.0%)", Color::Green, 5, 10),
        slice("Greylist (0, 0.0%)", Color::Blue, 0, 10),
        slice("Mark as Spam (5, 50.0%)", Color::Orange, 5, 10),
        slice("Reject (0, 0.0%)", Color::Red, 0, 10),
    ];
    let shown = visible_slices(&slices);
    assert_eq!(shown.len(), 2);
    assert_eq!(shown[0].label, "No Action (5, 50.0%)");
    assert_eq!(shown[0].color, Color::Green);
    assert_eq!(shown[0].ratio, Rate { part: 5, total: 10 });
    assert_eq!(shown[1].label, "Mark as Spam (5, 50.0%)");
    assert_eq!(shown[1].color, Color::Orange);
}

#[test]
fn visible_slices_keep_shares_of_nothing() {
    let slices = vec![slice("a", Color::Red, 0, 0), slice("b", Color::Violet, 0, 1)];
    let shown = visible_slices(&slices);
    assert_eq!(shown.len(), 1);
    assert_eq!(shown[0].label, "a");
    assert!(visible_slices(&vec![]).is_empty());
}

#[test]
fn group_by_date_collects_the_scores_of_each_day() {
    let scores = vec![
        (Date { days: 738_888 }, 1500),
        (Date { days: 738_886 }, -200),
        (Date { days: 738_888 }, 9000),
        (Date { days: 738_886 }, 300),
        (Date { days: 738_888 }, 1500),
    ];
    assert_eq!(
        group_by_date(&scores),
        vec![
            (Date { days: 738_886 }, vec![-200, 300]),
            (Date { days: 738_888 }, vec![1500, 9000, 1500]),
        ]
    );
    assert_eq!(group_by_date(&vec![]), vec![]);
}
