use quranize::Quranize;

fn corpus() -> Vec<String> {
    vec![
        "بِسمِ اللَّهِ الرَّحمـٰنِ الرَّحيمِ".to_string(),
        "ما شاءَ اللَّه".to_string(),
        "الم".to_string(),
        "قُل هُوَ اللَّهُ أَحَد".to_string(),
        "الرَّحمـٰنِ الرَّحيمِ".to_string(),
    ]
}

fn eight_row_corpus() -> Vec<String> {
    vec![
        "بِسمِ اللَّهِ الرَّحمـٰنِ الرَّحيمِ".to_string(),
        "الحَمدُ لِلَّهِ رَبِّ العالَمين".to_string(),
        "الرَّحمـٰنِ الرَّحيم".to_string(),
        "مالِكِ يَومِ الدّين".to_string(),
        "إِيّاكَ نَعبُدُ وَإِيّاكَ نَستَعين".to_string(),
        "اهدِنَا الصِّراطَ المُستَقيم".to_string(),
        "صِراطَ الَّذينَ أَنعَمتَ عَلَيهِم".to_string(),
        "بسم الله الرحمن الرحيم الم".to_string(),
    ]
}

fn e(q: &Quranize, text: &str) -> Vec<String> {
    q.encode(text).into_iter().map(|r| r.0).collect()
}

#[test]
fn test_unique() {
    let q = Quranize::new(&corpus());
    let results = e(&q, "masyaallah");
    let uresults = std::collections::HashSet::<&String>::from_iter(results.iter());
    let is_unique = results.len() == uresults.len();
    assert!(is_unique, "results are not unique. results: {:#?}", results);
}

#[test]
fn test_quranize_empty_result() {
    let q = Quranize::new(&corpus());
    let empty: [String; 0] = [];
    assert_eq!(e(&q, ""), empty);
    assert_eq!(e(&q, " "), empty);
    assert_eq!(e(&q, " -"), empty);
    assert_eq!(e(&q, "abcd"), empty);
    assert_eq!(e(&q, "1+2=3"), empty);
}

#[test]
fn test_decode() {
    let q = Quranize::new(&corpus());

    assert_eq!(q.decode("إِنّا لِلَّهِ وَإِنّا إِلَيهِ رٰجِعونَ"), ["inna lillahi wa inna ilayhi raji wna"]);
    assert_eq!(q.decode("بِسمِ اللَّهِ الرَّحمـٰنِ الرَّحيم"), ["bismi allahi alrrahm ani alrrahym"]);
    assert_eq!(q.decode("الحَمدُ لِلَّهِ رَبِّ العالَمين"), ["alhamdu lillahi rabbi al alamyn"]);
    assert_eq!(q.decode("الرَّحمـٰنِ الرَّحيم"), ["alrrahm ani alrrahym"]);
    assert_eq!(q.decode("مالِكِ يَومِ الدّين"), ["maliki yawmi alddyn"]);
    assert_eq!(q.decode("إِيّاكَ نَعبُدُ وَإِيّاكَ نَستَعين"), ["iyyaka na budu wa iyyaka nasta yn"]);
    assert_eq!(q.decode("اهدِنَا الصِّراطَ المُستَقيم"), ["ahdinaa alssirata almustakym"]);
    assert_eq!(q.decode("صِراطَ الَّذينَ أَنعَمتَ عَلَيهِم غَيرِ المَغضوبِ عَلَيهِم وَلَا الضّالّين"), ["sirata alladyna an amta alayhim gayri almagdwbi alayhim walaa alddallyn"]);

    assert_eq!(q.decode("قُل هُوَ اللَّهُ أَحَد"), ["kul huwa allahu ahad"]);
    assert_eq!(q.decode("اللَّهُ الصَّمَد"), ["allahu alssamad"]);
    assert_eq!(q.decode("لَم يَلِد وَلَم يولَد"), ["lam yalid walam ywlad"]);
    assert_eq!(q.decode("وَلَم يَكُن لَهُ كُفُوًا أَحَد"), ["walam yakun lahu kufuwana ahad"]);
}

#[test]
fn test_decode_is_pure() {
    let q = Quranize::new(&corpus());
    let s = "بِسمِ اللَّهِ الرَّحمـٰنِ الرَّحيم";
    assert_eq!(q.decode(s), q.decode(s));
}

#[test]
fn test_harf_muqottoah_opening() {
    let q = Quranize::new(&corpus());
    assert_eq!(
        q.encode("alif lam mim"),
        [("الم".to_string(), 1, vec!["alif".to_string(), "lam".to_string(), "mim".to_string()])]
    );
    assert_eq!(e(&q, "alif laaam miiim"), ["الم"]);
}

#[test]
fn test_encode_basmalah() {
    let q = Quranize::new(&corpus());
    let results = q.encode("bismillahirrohmanirrohim");
    assert!(!results.is_empty());
    assert_eq!(results[0].0, "بِسمِ اللَّهِ الرَّحمـٰنِ الرَّحيم");
}

#[test]
fn test_encode_normalized_determinism() {
    let q = Quranize::new(&corpus());
    assert_eq!(q.encode("alif lam mim"), q.encode("ALIF  LAM MIM"));
    assert_eq!(q.encode("masyaallah"), q.encode("MasyaAllah"));
}

#[test]
fn test_encode_no_duplicate_texts() {
    let q = Quranize::new(&corpus());
    for input in ["masyaallah", "bismillahirrohmanirrohim", "alif lam mim", "allah"] {
        let texts = e(&q, input);
        let set = std::collections::HashSet::<&String>::from_iter(texts.iter());
        assert_eq!(texts.len(), set.len());
    }
}

#[test]
fn test_find_locations() {
    let q = Quranize::new(&corpus());
    assert!(q.find("بِسمِ").contains(&(0, 0)));
    assert!(q.find("الم").contains(&(2, 0)));
    assert_eq!(q.find("الرَّحمـٰنِ الرَّحيمِ").len(), 2);
    assert!(q.find("").is_empty());
    assert!(q.find("نن").is_empty());
    assert!(q.find("نننن").is_empty());
    assert!(q.find("2+3+4=9").is_empty());
    assert!(q.find("abc").is_empty());
}

#[test]
fn test_find_counts_every_occurrence() {
    let q = Quranize::new(&corpus());
    let hits = q.find("اللَّه");
    assert_eq!(hits.len(), 3);
    assert!(hits.contains(&(0, 6)));
    assert!(hits.contains(&(1, 8)));
    assert!(hits.contains(&(3, 9)));
}

#[test]
fn test_tree_shape() {
    let q = Quranize::new(&corpus());
    assert_eq!(q.vertex_count(), q.edge_count() + 1);
    let q2 = Quranize::new(&eight_row_corpus());
    assert_eq!(q2.vertex_count(), q2.edge_count() + 1);
}

#[test]
fn test_row_numbering() {
    let q = Quranize::new(&eight_row_corpus());
    assert_eq!(q.get_sura(0), Some(1));
    assert_eq!(q.get_aya(0), Some(1));
    assert_eq!(q.get_sura(6), Some(1));
    assert_eq!(q.get_aya(6), Some(7));
    assert_eq!(q.get_sura(7), Some(2));
    assert_eq!(q.get_aya(7), Some(1));
    assert_eq!(q.get_sura(8), None);
    assert_eq!(q.get_aya(9999), None);
}

#[test]
fn test_basmalah_trimmed_on_sura_start() {
    let q = Quranize::new(&eight_row_corpus());
    assert_eq!(q.get_quran(7), Some("الم".to_string()));
    assert_eq!(q.get_quran(0), Some("بِسمِ اللَّهِ الرَّحمـٰنِ الرَّحيمِ".to_string()));
    assert_eq!(q.get_quran(8), None);
}
