use fortune_generator::fortune_data::{
    check_if_fortune_settings_are_valid, update_settings_paths, CategoryFortunes, CatalogError, FortuneData,
    FortuneSettings, LuckLevelInfo,
};
use fortune_generator::fortune_slips::FortuneSlipsFactory;
use fortune_generator::fortune_splitter::{identity_order, AllocError, FortuneSlipTextRef, FortuneSplitter};
use fortune_generator::pipeline::{chunk_pages, intersperse_pages};
use fortune_generator::text::text_less;

fn s(x: &str) -> String {
    x.to_string()
}

fn settings() -> FortuneSettings {
    FortuneSettings {
        luck_levels: vec![
            (s("good_luck"), LuckLevelInfo { jap: s("中吉"), eng: s("Good Luck") }),
            (s("bad_luck"), LuckLevelInfo { jap: s("凶"), eng: s("Bad Luck") }),
        ],
        fortune_content_files: vec![
            s("fortune_text/general_fortunes.yaml"),
            s("fortune_text/health_fortunes.yaml"),
            s("fortune_text/love_fortunes.yaml"),
        ],
        template_front: s("fortune_template/omikuji_frontside_test.svg"),
        template_back: s("fortune_template/omikuji_backside_long.svg"),
    }
}

fn category(name: &str, good: &[&str], bad: &[&str]) -> CategoryFortunes {
    CategoryFortunes {
        category: s(name),
        fortunes: vec![
            (s("good_luck"), good.iter().map(|x| s(x)).collect()),
            (s("bad_luck"), bad.iter().map(|x| s(x)).collect()),
        ],
    }
}

fn contents() -> Vec<CategoryFortunes> {
    vec![
        category(
            "general",
            &["Today is a good day.", "The sun will shine on you.", "A pleasant surprise awaits."],
            &["Stay at home today.", "Watch your step.", "Plans will fall through."],
        ),
        category(
            "health",
            &["You will feel energetic.", "A walk will do you good.", "Sleep will come easily."],
            &["The weather will cause sickness to spread around.", "Energy levels will be low for the coming week."],
        ),
        category(
            "love",
            &[
                "Good mood will attract people.",
                "Confess your love and you will be successful.",
                "Be open to meet new people, you will find love in the future.",
            ],
            &[
                "Confess your love and you will be unsuccessful.",
                "Don't let a second someone creep into your heart.",
                "Wipe your tears and move on, that's the only way you can find new love.",
            ],
        ),
    ]
}

fn catalog() -> FortuneData {
    match FortuneData::open(settings(), contents()) {
        Ok(d) => d,
        Err(_) => panic!("catalog rejected"),
    }
}

fn count_level(slips: &[FortuneSlipTextRef], label: &str) -> usize {
    slips.iter().filter(|x| x.luck_level == label).count()
}

#[test]
fn fortune_slips_test_create_fortune_slips() {
    let fortune_data = catalog();
    let fortune_slip_creator = FortuneSlipsFactory::new(&fortune_data);
    let fortune_slips = fortune_slip_creator.create_slips().ok().unwrap();

    assert_eq!(fortune_slips.len(), 5);
    assert_eq!(count_level(&fortune_slips, "Good Luck"), 3);
    assert_eq!(count_level(&fortune_slips, "Bad Luck"), 2);
}

#[test]
fn fortune_splitter_test_create_fortune_slips() {
    let fortune_data = catalog();
    let fortune_slip_creator = FortuneSplitter::new(&fortune_data);
    let fortune_slips = fortune_slip_creator.shuffle_and_split().ok().unwrap();

    assert_eq!(fortune_slips.len(), 5);
    assert_eq!(count_level(&fortune_slips, "Good Luck"), 3);
    assert_eq!(count_level(&fortune_slips, "Bad Luck"), 2);
}

#[test]
fn it_works() {
    let result = 2 + 2;
    assert_eq!(result, 4);
}

#[test]
fn test_load_fortune_data() {
    let fortune_data = catalog();
    let love = s("love");
    let love_good_fortunes = fortune_data.get_fortune_text(&love, &s("good_luck")).unwrap();
    let love_bad_fortunes = fortune_data.get_fortune_text(&love, &s("bad_luck")).unwrap();

    assert_eq!(
        love_good_fortunes,
        &vec![
            "Good mood will attract people.".to_string(),
            "Confess your love and you will be successful.".to_string(),
            "Be open to meet new people, you will find love in the future.".to_string(),
        ]
    );
    assert_eq!(
        love_bad_fortunes,
        &vec![
            "Confess your love and you will be unsuccessful.".to_string(),
            "Don't let a second someone creep into your heart.".to_string(),
            "Wipe your tears and move on, that's the only way you can find new love.".to_string(),
        ]
    );
}

#[test]
fn test_load_fortune_settings_with_updated_path() {
    let mut fortune_settings = settings();
    assert!(update_settings_paths("test_utils/data/fortune_settings.yaml", &mut fortune_settings).is_ok());

    assert_eq!(fortune_settings.luck_levels.len(), 2);
    assert_eq!(fortune_settings.luck_levels[0].1.jap, "中吉");
    assert_eq!(fortune_settings.luck_levels[1].1.eng, "Bad Luck");
    assert_eq!(
        fortune_settings.fortune_content_files,
        vec![
            s("test_utils/data/fortune_text/general_fortunes.yaml"),
            s("test_utils/data/fortune_text/health_fortunes.yaml"),
            s("test_utils/data/fortune_text/love_fortunes.yaml"),
        ]
    );
    assert_eq!(fortune_settings.template_front, "test_utils/data/fortune_template/omikuji_frontside_test.svg");
    assert_eq!(fortune_settings.template_back, "test_utils/data/fortune_template/omikuji_backside_long.svg");
}

#[test]
fn settings_path_without_parent_is_rejected() {
    let mut fortune_settings = settings();
    let r = update_settings_paths("/", &mut fortune_settings);
    assert!(matches!(r, Err(CatalogError::NoParentDirectory)));
    assert_eq!(fortune_settings.template_front, "fortune_template/omikuji_frontside_test.svg");
}

#[test]
fn catalog_getters() {
    let fortune_data = catalog();
    assert_eq!(fortune_data.get_settings().luck_levels.len(), 2);
    let health = fortune_data.get_fortune_text(&s("health"), &s("bad_luck")).unwrap();
    assert_eq!(health[0], "The weather will cause sickness to spread around.");
    assert_eq!(health[1], "Energy levels will be low for the coming week.");
    assert_eq!(fortune_data.get_categories(), vec![s("general"), s("health"), s("love")]);
    assert_eq!(fortune_data.get_luck_level_keys(), vec![s("good_luck"), s("bad_luck")]);
    assert!(fortune_data.get_fortune_text(&s("money"), &s("bad_luck")).is_none());
    assert!(fortune_data.get_fortune_text(&s("love"), &s("great_luck")).is_none());
}

#[test]
fn catalog_rejects_inconsistent_luck_levels() {
    let mut c = contents();
    c[1].fortunes.pop();
    let r = FortuneData::open(settings(), c);
    assert!(matches!(r, Err(CatalogError::InconsistentLuckLevels { ref category }) if category == "health"));
}

#[test]
fn catalog_rejects_duplicate_category() {
    let mut c = contents();
    c[2].category = s("general");
    let r = FortuneData::open(settings(), c);
    assert!(matches!(r, Err(CatalogError::DuplicateCategory { ref category }) if category == "general"));
    assert!(check_if_fortune_settings_are_valid(settings(), contents()).is_ok());
}

#[test]
fn slip_count_is_the_scarcest_category() {
    let fortune_data = catalog();
    let splitter = FortuneSplitter::new(&fortune_data);
    let good = splitter.create_random_slips_for_luck(&s("good_luck")).ok().unwrap();
    let bad = splitter.create_random_slips_for_luck(&s("bad_luck")).ok().unwrap();
    assert_eq!(good.len(), 3);
    assert_eq!(bad.len(), 2);
    assert_eq!(splitter.max_nr_of_fortunes(&s("bad_luck")).ok().unwrap(), 2);
}

#[test]
fn no_text_is_dealt_twice() {
    let fortune_data = catalog();
    let splitter = FortuneSplitter::new(&fortune_data);
    for _ in 0..20 {
        let slips = splitter.create_random_slips_for_luck(&s("good_luck")).ok().unwrap();
        for c in 0..3 {
            let mut texts: Vec<&String> = slips.iter().map(|x| &x.category_to_fortune[c].1).collect();
            texts.sort();
            texts.dedup();
            assert_eq!(texts.len(), slips.len());
        }
    }
}

#[test]
fn fixed_orders_deal_exact_texts() {
    let fortune_data = catalog();
    let splitter = FortuneSplitter::new(&fortune_data);
    let orders = vec![vec![2, 1, 0], vec![0, 1], vec![1, 2, 0]];
    let slips = splitter.create_slips_for_luck_with_orders(&s("bad_luck"), &orders).ok().unwrap();
    assert_eq!(slips.len(), 2);
    assert_eq!(slips[0].header, "凶");
    assert_eq!(slips[0].luck_level, "Bad Luck");
    assert_eq!(slips[0].category_to_fortune[0], (s("general"), s("Plans will fall through.")));
    assert_eq!(slips[0].category_to_fortune[1], (s("health"), s("The weather will cause sickness to spread around.")));
    assert_eq!(slips[1].category_to_fortune[2], (s("love"), s("Wipe your tears and move on, that's the only way you can find new love.")));
    assert_eq!(identity_order(3), vec![0, 1, 2]);
}

#[test]
fn bad_orders_are_rejected() {
    let fortune_data = catalog();
    let splitter = FortuneSplitter::new(&fortune_data);
    let orders = vec![vec![0, 0, 1], vec![0, 1], vec![1, 2, 0]];
    let r = splitter.create_slips_for_luck_with_orders(&s("bad_luck"), &orders);
    assert!(matches!(r, Err(AllocError::BadOrders)));
}

#[test]
fn unknown_luck_level_is_an_error() {
    let fortune_data = catalog();
    let splitter = FortuneSplitter::new(&fortune_data);
    let r = splitter.create_random_slips_for_luck(&s("great_luck"));
    assert!(r.is_err());
}

#[test]
fn catalog_without_categories_has_no_slips() {
    let fortune_data = FortuneData::open(settings(), vec![]).ok().unwrap();
    let splitter = FortuneSplitter::new(&fortune_data);
    assert!(matches!(splitter.shuffle_and_split(), Err(AllocError::NoCategories { .. })));
}

#[test]
fn one_level_three_slips_make_one_page_and_two_output_pages() {
    let settings = FortuneSettings {
        luck_levels: vec![(s("good_luck"), LuckLevelInfo { jap: s("中吉"), eng: s("Good Luck") })],
        fortune_content_files: vec![],
        template_front: s("front.svg"),
        template_back: s("back.svg"),
    };
    let c = vec![
        CategoryFortunes { category: s("health"), fortunes: vec![(s("good_luck"), vec![s("h1"), s("h2"), s("h3")])] },
        CategoryFortunes { category: s("love"), fortunes: vec![(s("good_luck"), vec![s("l1"), s("l2"), s("l3")])] },
    ];
    let data = FortuneData::open(settings, c).ok().unwrap();
    let slips = FortuneSplitter::new(&data).shuffle_and_split().ok().unwrap();
    assert_eq!(slips.len(), 3);
    let pages = chunk_pages(slips);
    assert_eq!(pages.len(), 1);
    let fronts: Vec<String> = (0..pages.len()).map(|i| format!("{}.pdf", i)).collect();
    let order = intersperse_pages(fronts, s("backside.pdf"));
    assert_eq!(order, vec![s("0.pdf"), s("backside.pdf")]);
}

#[test]
fn two_levels_five_slips_make_two_pages_and_four_output_pages() {
    let settings = FortuneSettings {
        luck_levels: vec![
            (s("good_luck"), LuckLevelInfo { jap: s("中吉"), eng: s("Good Luck") }),
            (s("bad_luck"), LuckLevelInfo { jap: s("凶"), eng: s("Bad Luck") }),
        ],
        fortune_content_files: vec![],
        template_front: s("front.svg"),
        template_back: s("back.svg"),
    };
    let c = vec![
        CategoryFortunes {
            category: s("health"),
            fortunes: vec![(s("good_luck"), vec![s("h1"), s("h2"), s("h3")]), (s("bad_luck"), vec![s("hb1"), s("hb2")])],
        },
        CategoryFortunes {
            category: s("love"),
            fortunes: vec![(s("good_luck"), vec![s("l1"), s("l2"), s("l3")]), (s("bad_luck"), vec![s("lb1"), s("lb2")])],
        },
    ];
    let data = FortuneData::open(settings, c).ok().unwrap();
    let slips = FortuneSplitter::new(&data).shuffle_and_split().ok().unwrap();
    assert_eq!(slips.len(), 5);
    let pages = chunk_pages(slips);
    assert_eq!(pages.len(), 2);
    assert_eq!(pages[0].len(), 4);
    assert_eq!(pages[1].len(), 1);
    let fronts: Vec<String> = (0..pages.len()).map(|i| format!("{}.pdf", i)).collect();
    let order = intersperse_pages(fronts, s("backside.pdf"));
    assert_eq!(order, vec![s("0.pdf"), s("backside.pdf"), s("1.pdf"), s("backside.pdf")]);
}

#[test]
fn slips_are_grouped_in_label_order() {
    let fortune_data = catalog();
    let splitter = FortuneSplitter::new(&fortune_data);
    assert_eq!(splitter.luck_levels_by_label(), vec![1, 0]);
    let slips = splitter.shuffle_and_split().ok().unwrap();
    let labels: Vec<&str> = slips.iter().map(|x| x.luck_level.as_str()).collect();
    assert_eq!(labels, vec!["Bad Luck", "Bad Luck", "Good Luck", "Good Luck", "Good Luck"]);
}

#[test]
fn factory_keeps_registry_order() {
    let fortune_data = catalog();
    let slips = FortuneSlipsFactory::new(&fortune_data).create_slips().ok().unwrap();
    let labels: Vec<&str> = slips.iter().map(|x| x.luck_level.as_str()).collect();
    assert_eq!(labels, vec!["Good Luck", "Good Luck", "Good Luck", "Bad Luck", "Bad Luck"]);
}

#[test]
fn text_order_compares_characters() {
    assert!(text_less("Bad Luck", "Good Luck"));
    assert!(!text_less("Good Luck", "Bad Luck"));
    assert!(text_less("Good", "Good Luck"));
    assert!(!text_less("Good", "Good"));
    assert!(text_less("中", "凶") == ("中" < "凶"));
}

#[test]
fn no_front_pages_leave_the_backside_alone() {
    assert_eq!(intersperse_pages(vec![], s("backside.pdf")), vec![s("backside.pdf")]);
    assert!(chunk_pages(vec![]).is_empty());
}
