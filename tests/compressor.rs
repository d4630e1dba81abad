use crinex::compressor::{format_epoch_descriptor, Compressor, State};
use crinex::error::Error;
use crinex::numdiff::NumDiff;
use crinex::sv::{CodeList, Header, RinexType, Sv};
use crinex::text::parse_milli;
use crinex::textdiff::TextDiff;

fn header(kind: RinexType, n: usize) -> Header {
    Header {
        rinex_type: kind,
        constellation: None,
        obs_codes: vec![CodeList {
            constellation: 'G',
            codes: (0..n).map(|i| format!("C{}C", i)).collect(),
        }],
    }
}

fn epoch_line(sv: &str) -> String {
    format!("{:<30}{:>2}{}", " 22  1  1  0  0  0.0000000  0", 1, sv)
}

#[test]
fn not_observation_data() {
    let mut c = Compressor::new();
    let h = header(RinexType::NavigationData, 2);
    assert_eq!(c.compress(&h, "anything\n"), Err(Error::NotObsRinexData));
}

#[test]
fn malformed_first_line() {
    let mut c = Compressor::new();
    let h = header(RinexType::ObservationData, 2);
    assert_eq!(c.compress(&h, " 22  1  1 \n"), Err(Error::MalformedEpochDescriptor));
}

#[test]
fn first_and_second_epoch() {
    let mut c = Compressor::new();
    let h = header(RinexType::ObservationData, 2);
    let e = epoch_line("G01");
    let input = format!("{}\n     12345.678       54321.0001 \n", e);
    let out = c.compress(&h, &input).unwrap();
    let desc = format_epoch_descriptor(&e);
    assert!(out.starts_with('&'));
    assert_eq!(out, format!("{}\n3&12345678 3&54321000   1\n", desc));
    let input2 = format!("{}\n     12345.679       54321.0011 \n", e);
    let out2 = c.compress(&h, &input2).unwrap();
    assert!(out2.ends_with("\n\n1 1 \n"));
}

#[test]
fn early_blank_line() {
    let mut c = Compressor::new();
    let mut h = header(RinexType::ObservationData, 7);
    h.obs_codes[0].codes.truncate(7);
    let e = epoch_line("G01");
    let l1 = "  1.000           2.000           3.000           4.000           5.000";
    let input = format!("{}\n{}\n\n", e, l1);
    let out = c.compress(&h, &input).unwrap();
    assert!(out.ends_with("\n3&1000 3&2000 3&3000 3&4000 3&5000   \n"));
    let l2 = "  6.000           7.000";
    let out2 = c.compress(&h, &format!("{}\n{}\n{}\n", e, l1, l2)).unwrap();
    assert!(out2.ends_with("\n\n0 0 0 0 0 3&6000 3&7000 \n"));
}

#[test]
fn truncated_line_then_reseed() {
    let mut c = Compressor::new();
    let h = header(RinexType::ObservationData, 2);
    let e = epoch_line("G01");
    let full = "  1.000           2.000";
    let input = format!("{}\n  1.000\n{}\n{}\n", e, e, full);
    let out = c.compress(&h, &input).unwrap();
    assert!(out.contains("3&1000  \n"));
    assert!(out.ends_with("0 3&2000 \n"));
}

#[test]
fn comment_passes_through() {
    let mut c = Compressor::new();
    let h = header(RinexType::ObservationData, 2);
    let line = format!("{:<60}COMMENT", "hello");
    let out = c.compress(&h, &format!("{}\n", line)).unwrap();
    assert_eq!(out, format!("{}\n", line));
}

#[test]
fn splice_resets_descriptor() {
    let mut c = Compressor::new();
    let h = header(RinexType::ObservationData, 2);
    let line = format!("{:<60}COMMENT", "RINEX FILE SPLICE");
    let r = c.compress(&h, &format!("{}\nshort\n", line));
    assert_eq!(r, Err(Error::MalformedEpochDescriptor));
}

#[test]
fn numdiff_orders() {
    assert!(NumDiff::new(0).is_err());
    assert!(NumDiff::new(6).is_err());
    let mut k = NumDiff::new(3).unwrap();
    k.init(3, 10).unwrap();
    assert_eq!(k.compress(11), 1);
    assert_eq!(k.compress(13), 1);
    assert_eq!(k.compress(16), 0);
    assert_eq!(k.compress(21), 1);
}

#[test]
fn state_reset() {
    let mut s = State::Body;
    s.reset();
    assert_eq!(s, State::EpochDescriptor);
}

#[test]
fn descriptor_reshape() {
    assert_eq!(format_epoch_descriptor(" a b \n   c\n"), "&a bc\n");
}

#[test]
fn pure_deltas_after_first_epoch() {
    let mut c = Compressor::new();
    let h = header(RinexType::ObservationData, 1);
    let e = epoch_line("G01");
    let values = ["1.000", "1.002", "1.006", "1.013", "1.025"];
    let mut outs = Vec::new();
    for v in values.iter() {
        let out = c.compress(&h, &format!("{}\n{:>14}\n", e, v)).unwrap();
        outs.push(out);
    }
    assert!(outs[0].ends_with("\n3&1000 \n"));
    assert!(outs[1].ends_with("\n\n2 \n"));
    assert!(outs[2].ends_with("\n\n2 \n"));
    assert!(outs[3].ends_with("\n\n1 \n"));
    assert!(outs[4].ends_with("\n\n2 \n"));
    for o in outs.iter().skip(1) {
        assert!(!o.contains("3&"));
    }
}

#[test]
fn unreadable_value_is_reseeded_once() {
    let mut c = Compressor::new();
    let h = header(RinexType::ObservationData, 2);
    let e = epoch_line("G01");
    let out1 = c.compress(&h, &format!("{}\n{:>14}  {:>14}\n", e, "1.000", "2.000")).unwrap();
    assert!(out1.ends_with("\n3&1000 3&2000 \n"));
    let out2 = c.compress(&h, &format!("{}\n{:>14}  {:>14}\n", e, "1.001", "x.yz")).unwrap();
    assert!(out2.ends_with("\n\n1  \n"));
    let out3 = c.compress(&h, &format!("{}\n{:>14}  {:>14}\n", e, "1.002", "2.005")).unwrap();
    assert!(out3.ends_with("\n\n0 3&2005 \n"));
    let out4 = c.compress(&h, &format!("{}\n{:>14}  {:>14}\n", e, "1.003", "2.007")).unwrap();
    assert!(out4.ends_with("\n\n0 2 \n"));
}

#[test]
fn flags_are_differenced() {
    let mut c = Compressor::new();
    let h = header(RinexType::ObservationData, 1);
    let e = epoch_line("G01");
    let out1 = c.compress(&h, &format!("{}\n{:>14}15\n", e, "1.000")).unwrap();
    assert!(out1.ends_with("\n3&1000 15\n"));
    let out2 = c.compress(&h, &format!("{}\n{:>14}16\n", e, "1.000")).unwrap();
    assert!(out2.ends_with("\n\n0  6\n"));
}

#[test]
fn negative_and_rounded_values() {
    let mut c = Compressor::new();
    let h = header(RinexType::ObservationData, 2);
    let e = epoch_line("G01");
    let out = c.compress(&h, &format!("{}\n{:>14}  {:>14}\n", e, "-3.2505", "0.0004")).unwrap();
    assert!(out.ends_with("\n3&-3251 3&0 \n"));
}

#[test]
fn comments_only_input() {
    let mut c = Compressor::new();
    let h = header(RinexType::ObservationData, 2);
    let a = format!("{:<60}COMMENT", "first");
    let b = format!("{:<60}COMMENT", "second");
    let out = c.compress(&h, &format!("{}\n{}\n", a, b)).unwrap();
    assert_eq!(out, format!("{}\n{}\n", a, b));
}

#[test]
fn empty_input() {
    let mut c = Compressor::new();
    let h = header(RinexType::ObservationData, 2);
    assert_eq!(c.compress(&h, ""), Ok(String::new()));
}

#[test]
fn unknown_constellation() {
    let mut c = Compressor::new();
    let h = header(RinexType::ObservationData, 1);
    let e = epoch_line("R01");
    let r = c.compress(&h, &format!("{}\n{:>14}\n", e, "1.000"));
    assert_eq!(r, Err(Error::VehiculeIdentificationError));
}

#[test]
fn legacy_identifier_uses_default_constellation() {
    let mut c = Compressor::new();
    let mut h = header(RinexType::ObservationData, 1);
    h.constellation = Some('G');
    let e = epoch_line(" 01");
    let out = c.compress(&h, &format!("{}\n{:>14}\n", e, "1.000")).unwrap();
    assert!(out.ends_with("\n3&1000 \n"));
}

#[test]
fn compress_line_passes_comment() {
    let mut c = Compressor::new();
    let h = header(RinexType::ObservationData, 1);
    let line: Vec<char> = format!("{:<60}COMMENT", "x").chars().collect();
    let mut out = Vec::new();
    assert_eq!(c.compress_line(&h, &line, &mut out), Ok(false));
    let mut expected = line.clone();
    expected.push('\n');
    assert_eq!(out, expected);
}

#[test]
fn encode_observable_seeds_new_observables() {
    let mut c = Compressor::new();
    let h = header(RinexType::ObservationData, 2);
    let e: Vec<char> = epoch_line("G01").chars().collect();
    let mut out = Vec::new();
    c.compress_line(&h, &e, &mut out).unwrap();
    let sv = Sv { constellation: 'G', prn: 1 };
    let field: Vec<char> = format!("{:>14}  ", "2.500").chars().collect();
    let mut o = Vec::new();
    c.encode_observable(sv, &field, 0, 16, &mut o);
    assert_eq!(o.iter().collect::<String>(), "3&2500 ");
    let blank: Vec<char> = "              ".chars().collect();
    let mut o2 = Vec::new();
    c.encode_observable(sv, &blank, 0, 14, &mut o2);
    assert_eq!(o2, vec![' ']);
}

#[test]
fn satellite_identifiers() {
    let p = |t: &str| Sv::parse(&t.chars().collect());
    assert_eq!(p("G07"), Some(Sv { constellation: 'G', prn: 7 }));
    assert_eq!(p("R 5"), Some(Sv { constellation: 'R', prn: 5 }));
    assert_eq!(p("E12"), Some(Sv { constellation: 'E', prn: 12 }));
    assert_eq!(p("X01"), None);
    assert_eq!(p("G"), None);
    assert_eq!(p("Gx1"), None);
}

#[test]
fn observable_counts() {
    let h = header(RinexType::ObservationData, 3);
    assert_eq!(h.nb_observables('G'), Some(3));
    assert_eq!(h.nb_observables('E'), None);
}

#[test]
fn fixed_point_values() {
    let v = |t: &str| {
        let c: Vec<char> = t.chars().collect();
        parse_milli(&c, 0, c.len())
    };
    assert_eq!(v("12345.678"), Some(12345678));
    assert_eq!(v("-0.5"), Some(-500));
    assert_eq!(v("+7"), Some(7000));
    assert_eq!(v(".25"), Some(250));
    assert_eq!(v("1.0005"), Some(1001));
    assert_eq!(v("1.2.3"), None);
    assert_eq!(v(""), None);
    assert_eq!(v("."), None);
    assert_eq!(v("abc"), None);
}

#[test]
fn text_differences() {
    let mut t = TextDiff::new();
    t.init(&"abc".chars().collect());
    let d = t.compress(&"abdxy".chars().collect());
    assert_eq!(d.iter().collect::<String>(), "  dxy");
    let d2 = t.compress(&"a".chars().collect());
    assert_eq!(d2.iter().collect::<String>(), " ");
}

#[test]
fn too_many_observables_for_declared_count() {
    let mut c = Compressor::new();
    let h2 = header(RinexType::ObservationData, 3);
    let h1 = header(RinexType::ObservationData, 1);
    let e = epoch_line("G01");
    let mut out = Vec::new();
    let el: Vec<char> = e.chars().collect();
    c.compress_line(&h2, &el, &mut out).unwrap();
    let l1: Vec<char> = format!("{:>14}  {:>14}  ", "1.000", "1.500").chars().collect();
    c.compress_line(&h2, &l1, &mut out).unwrap();
    let l2: Vec<char> = format!("{:>14}  ", "2.000").chars().collect();
    assert_eq!(c.compress_line(&h1, &l2, &mut out), Err(Error::MalformedEpochBody));
}

#[test]
fn omitted_trailing_field_reseeds_next_epoch() {
    let mut c = Compressor::new();
    let h = header(RinexType::ObservationData, 2);
    let e = epoch_line("G01");
    let input = format!(
        "{e}\n{:>14}  {:>14}\n{e}\n{:>14}\n{e}\n{:>14}  {:>14}\n",
        "1.000", "2.000", "1.001", "1.002", "2.001"
    );
    let out = c.compress(&h, &input).unwrap();
    assert!(out.contains("\n3&1000 3&2000 \n"));
    assert!(out.ends_with("\n1  \n\n\n0 3&2001 \n"));
}

#[test]
fn omitted_fields_then_next_satellite_line() {
    let mut c = Compressor::new();
    let h = header(RinexType::ObservationData, 2);
    let e = format!("{:<30}{:>2}{}", " 22  1  1  0  0  0.0000000  0", 2, "G01G02");
    let input = format!("{}\n{:>14}\n{:>14}  {:>14}\n", e, "1.000", "3.000", "4.000");
    let out = c.compress(&h, &input).unwrap();
    assert!(out.ends_with("\n\n3&1000  \n3&3000 3&4000 \n"));
}
