use acts_ks2::load::{CellFormat, CellWrite, Matches, Moving, OutputData, PrintPart, Report, Source};
use acts_ks2::transform::{Act, FieldValue, TotalsRow};

fn s(x: &str) -> String {
    String::from(x)
}

#[allow(non_snake_case)]
#[test]
fn PrintPart_test() {
    let vec_to_test = vec![
        OutputData{rename: None,                                      moving: Moving::No,  expected_columns: 1,  source: Source::InTableHeader(s("Объект"))},
        OutputData{rename: None,                                      moving: Moving::Yes, expected_columns: 2,  source: Source::AtBasePrices(s("Накладные расходы"), Matches::Exact)},
        OutputData{rename: None,                                      moving: Moving::Yes, expected_columns: 3,  source: Source::AtBasePrices(s("Эксплуатация машин"), Matches::Exact)},
        OutputData{rename: None,                                      moving: Moving::Yes, expected_columns: 4,  source: Source::AtCurrPrices(s("Накладные расходы"), Matches::Exact)},
        OutputData{rename: None,                                      moving: Moving::Yes, expected_columns: 5,  source: Source::AtCurrPrices(s("Накладные"), Matches::Contains)},
        OutputData{rename: Some(s("РЕНЕЙМ................")), moving: Moving::No,  expected_columns: 6,  source: Source::AtCurrPrices(s("Производство работ в зимнее время 4%"), Matches::Exact)},
        OutputData{rename: Some(s("УДАЛИТЬ...............")), moving: Moving::Del, expected_columns: 99, source: Source::AtBasePrices(s("Производство работ в зимнее время 4%"), Matches::Exact)},
        OutputData{rename: None,                                      moving: Moving::Yes, expected_columns: 8,  source: Source::AtCurrPrices(s("Стоимость материальных ресурсов (всего)"), Matches::Exact)},
    ];
    let printpart = PrintPart::new(vec_to_test).unwrap();

    assert_eq!(&29, &printpart.get_number_of_columns());
    assert_eq!(
        Some((6, 21)),
        printpart.get_column(
            "curr",
            "Стоимость материальных ресурсов (всего)",
            Matches::Exact
        )
    );
    assert_eq!(
        Some((4, 10)),
        printpart.get_column("curr", "Накладные расходы", Matches::Contains)
    );
}

fn row(name: &str, base: Vec<Option<f64>>, curr: Vec<Option<f64>>) -> TotalsRow {
    TotalsRow {
        name: s(name),
        base_price: base.into_iter().map(|o| o.map(f64::to_bits)).collect(),
        curr_price: curr.into_iter().map(|o| o.map(f64::to_bits)).collect(),
    }
}

fn header_names() -> Vec<String> {
    acts_ks2::extract::desired_data_array()
        .into_iter()
        .map(|d| d.name)
        .collect()
}

fn field(names: &[String], name: &str, v: FieldValue, data: &mut Vec<FieldValue>) {
    let i = names.iter().position(|n| n == name).unwrap();
    data[i] = v;
}

fn sample_act(path: &str) -> Act {
    let names = header_names();
    let mut data: Vec<FieldValue> = names.iter().map(|_| FieldValue::Absent).collect();
    field(&names, "Исполнитель", FieldValue::Text(s("ООО Ромашка")), &mut data);
    field(&names, "Глава", FieldValue::Text(s("5")), &mut data);
    field(&names, "Глава наименование", FieldValue::Text(s("Сети")), &mut data);
    field(&names, "Объект", FieldValue::Text(s("Дом 7")), &mut data);
    field(&names, "Договор дата", FieldValue::Number(f64::to_bits(44200.0)), &mut data);
    field(&names, "Смета №", FieldValue::Text(s("Смета № 02-01")), &mut data);
    field(&names, "Акт №", FieldValue::Text(s("18/11-5/2/1")), &mut data);
    field(
        &names,
        "По смете в ц.2000г.",
        FieldValue::Text(s("1 234,56 тыс. руб.")),
        &mut data,
    );
    Act {
        path: s(path),
        names_of_header: names,
        data_of_header: data,
        data_of_totals: vec![
            row("эксплуатация машин", vec![Some(1.0), Some(2.0)], vec![Some(3.0)]),
            row("накладные расходы", vec![None, Some(4.0)], vec![Some(5.0), Some(6.0)]),
            row("Всего с НР и СП (тек. ц.)", vec![Some(9.0)], vec![Some(9.0)]),
        ],
    }
}

#[test]
fn discovery_is_idempotent_and_skips_claimed_names() {
    let act = sample_act("C:\\in\\act1.xlsm");
    let main = Report::new();
    // the canonical template claims "Всего с НР и СП (тек" for dropping:
    // the discovered base layout holds only the two genuine totals names
    let r1 = Report::other_print_parts(&act, &canonical_vec());
    let r2 = Report::other_print_parts(&act, &canonical_vec());
    assert_eq!(r1, r2);
    let (base, curr) = r1;
    assert_eq!(base.len(), 2, "the base family claims the dropped total");
    assert_eq!(curr.len(), 3, "the current family has no claim on it");
    assert_eq!(base[0].expected_columns, 2);
    assert_eq!(base[1].expected_columns, 2);
    assert_eq!(curr[0].expected_columns, 1);
    assert_eq!(curr[1].expected_columns, 2);
    assert_eq!(curr[2].expected_columns, 1);
    assert_eq!(
        base[0].source,
        Source::AtBasePrices(s("эксплуатация машин"), Matches::Exact)
    );
    assert_eq!(base[0].moving, Moving::No);
    drop(main);
}

// the canonical columns, rebuilt the way the report declares them, for
// feeding discovery directly
fn canonical_vec() -> Vec<OutputData> {
    let mut v = Vec::new();
    v.push(OutputData {
        rename: None,
        moving: Moving::Del,
        expected_columns: 1,
        source: Source::AtBasePrices(s("Всего с НР и СП (тек"), Matches::Contains),
    });
    v.push(OutputData {
        rename: None,
        moving: Moving::Del,
        expected_columns: 1,
        source: Source::AtCurrPrices(s("Всего с НР и СП (баз"), Matches::Contains),
    });
    v
}

#[test]
fn duplicate_first_document_name_registers_once() {
    let mut act = sample_act("a.xlsm");
    let extra = row("эксплуатация машин", vec![Some(7.0)], vec![]);
    act.data_of_totals.push(extra);
    let (base, _curr) = Report::other_print_parts(&act, &canonical_vec());
    let machine_cols = base
        .iter()
        .filter(|o| o.source == Source::AtBasePrices(s("эксплуатация машин"), Matches::Exact))
        .count();
    assert_eq!(machine_cols, 1);
    // first occurrence wins: the width comes from the first row
    assert_eq!(base[0].expected_columns, 2);
}

#[test]
fn row_projection_truncates_and_leaves_blanks() {
    let mut report = Report::new();
    let act = sample_act("a.xlsm");
    report.write(&act).unwrap();
    // the frozen base width of the machines row is 2
    let wide = row("эксплуатация машин", vec![Some(1.5), Some(2.5), Some(3.5), Some(4.5)], vec![]);
    let writes = report.write_totals(&wide);
    assert_eq!(writes.len(), 2, "an over-wide row truncates, it does not error");
    let narrow = row("эксплуатация машин", vec![Some(8.25)], vec![]);
    let writes = report.write_totals(&narrow);
    assert_eq!(writes.len(), 1, "a narrow row leaves its tail blank");
    // a blank cell inside the claimed span writes nothing
    let gappy = row("эксплуатация машин", vec![None, Some(2.0)], vec![]);
    let writes = report.write_totals(&gappy);
    assert_eq!(writes.len(), 1);
    match &writes[0] {
        CellWrite::Number { col, bits, .. } => {
            // main(16) columns precede the discovered base section; the gap
            // occupies the first discovered column
            assert_eq!(*col, 17);
            assert_eq!(*bits, f64::to_bits(2.0));
        }
        w => panic!("unexpected write {:?}", w),
    }
}

#[test]
fn header_derivations_write_expected_cells() {
    let mut report = Report::new();
    let act = sample_act("C:\\in\\act1.xlsm");
    let writes = report.write(&act).unwrap();
    // chapter concatenation
    assert!(writes.contains(&CellWrite::Text {
        row: 1,
        col: 3,
        text: s("5 «Сети»"),
        format: CellFormat::Plain
    }));
    // estimate number with its fixed prefix stripped
    assert!(writes.contains(&CellWrite::Text {
        row: 1,
        col: 7,
        text: s("02-01"),
        format: CellFormat::Plain
    }));
    // certificate number cut at the first slash when it has exactly three
    assert!(writes.contains(&CellWrite::Text {
        row: 1,
        col: 11,
        text: s("18"),
        format: CellFormat::Plain
    }));
    // localized figure cleaned for scaling
    assert!(writes.contains(&CellWrite::ScaledNumberText {
        row: 1,
        col: 9,
        text: s("1234.56")
    }));
    // a date-typed field carries the date format
    assert!(writes.contains(&CellWrite::Number {
        row: 1,
        col: 6,
        bits: f64::to_bits(44200.0),
        format: CellFormat::Date
    }));
    // folder and file hyperlinks from the stored path
    assert!(writes.contains(&CellWrite::Url { row: 1, col: 0, target: s("C:\\in\\") }));
    assert!(writes.contains(&CellWrite::Formula {
        row: 1,
        col: 1,
        formula: s("=HYPERLINK(\"C:\\in\\act1.xlsm\", \"act1.xlsm\")"),
        format: CellFormat::Link
    }));
    // a verbatim header field arrives unchanged
    assert!(writes.contains(&CellWrite::Text {
        row: 1,
        col: 2,
        text: s("ООО Ромашка"),
        format: CellFormat::Plain
    }));
}

#[test]
fn three_documents_one_frozen_schema() {
    let mut report = Report::new();
    let a1 = sample_act("x\\1.xlsm");
    let a2 = sample_act("x\\1.xlsm");
    let a3 = sample_act("x\\1.xlsm");
    let w1 = report.write(&a1).unwrap();
    let w2 = report.write(&a2).unwrap();
    let w3 = report.write(&a3).unwrap();
    assert!(!w1.is_empty());
    // identical documents produce identical rows, shifted one row down
    let shift = |ws: &Vec<CellWrite>| -> Vec<(u16, String)> {
        ws.iter()
            .map(|w| match w {
                CellWrite::Text { col, text, .. } => (*col, format!("t:{}", text)),
                CellWrite::Number { col, bits, .. } => (*col, format!("n:{}", bits)),
                CellWrite::ScaledNumberText { col, text, .. } => (*col, format!("s:{}", text)),
                CellWrite::Url { col, target, .. } => (*col, format!("u:{}", target)),
                CellWrite::Formula { col, formula, .. } => (*col, format!("f:{}", formula)),
            })
            .collect()
    };
    assert_eq!(shift(&w2), shift(&w3));
    assert_eq!(shift(&w1), shift(&w2));
    let plan = report.end();
    // one header row at row zero, every column titled across its width
    assert_eq!(plan.last_row, 4);
    assert_eq!(plan.last_col, 16 + 4 + 4);
    assert_eq!(plan.header_writes.len(), (16 + 4 + 4) as usize);
    for w in &plan.header_writes {
        match w {
            CellWrite::Text { row, .. } => assert_eq!(*row, 0),
            w => panic!("unexpected header write {:?}", w),
        }
    }
    // discovered sections carry the family tags
    assert!(plan.header_writes.iter().any(|w| match w {
        CellWrite::Text { text, .. } => text == "БЦ эксплуатация машин",
        _ => false,
    }));
    assert!(plan.header_writes.iter().any(|w| match w {
        CellWrite::Text { text, .. } => text == "TЦ накладные расходы",
        _ => false,
    }));
}

#[test]
fn unknown_derivation_aborts() {
    let mut v = Vec::new();
    v.push(OutputData {
        rename: None,
        moving: Moving::No,
        expected_columns: 1,
        source: Source::Calculate(s("Нет такого правила")),
    });
    let part = PrintPart::new(v).unwrap();
    let report = Report {
        part_main: part,
        part_base: None,
        part_curr: None,
        empty_row: 1,
    };
    let act = sample_act("a.xlsm");
    assert!(report.write_header(&act).is_err());
}

#[test]
fn layout_width_overflow_is_reported() {
    let mut v = Vec::new();
    for _ in 0..3 {
        v.push(OutputData {
            rename: None,
            moving: Moving::No,
            expected_columns: u16::MAX / 2,
            source: Source::InTableHeader(s("Объект")),
        });
    }
    assert!(PrintPart::new(v).is_none());
}

#[test]
fn empty_first_document_freezes_empty_layouts() {
    let mut report = Report::new();
    let mut act = sample_act("a.xlsm");
    act.data_of_totals.clear();
    let writes = report.write(&act).unwrap();
    assert!(!writes.is_empty(), "the header fields still come through");
    // frozen empty: a later, richer document finds no discovered columns
    let later = row("эксплуатация машин", vec![Some(1.0)], vec![Some(2.0)]);
    assert_eq!(report.write_totals(&later).len(), 0);
    let plan = report.end();
    assert_eq!(plan.last_col, 16);
}

#[test]
fn truncation_is_countable() {
    let mut report = Report::new();
    let act = sample_act("a.xlsm");
    report.write(&act).unwrap();
    // frozen widths: base 2, curr 1 for the machines row
    let wide = row(
        "эксплуатация машин",
        vec![Some(1.0), Some(2.0), Some(3.0)],
        vec![Some(4.0), Some(5.0)],
    );
    assert_eq!(report.truncated_values(&wide), 1 + 1);
    let fitting = row("эксплуатация машин", vec![Some(1.0)], vec![Some(4.0)]);
    assert_eq!(report.truncated_values(&fitting), 0);
    let unclaimed = row("нигде не числится", vec![Some(1.0); 30], vec![]);
    assert_eq!(report.truncated_values(&unclaimed), 0);
}

#[test]
fn empty_family_row_discovers_no_column() {
    let mut act = sample_act("a.xlsm");
    act.data_of_totals.push(row("только текущие", vec![], vec![Some(7.0)]));
    let (base, curr) = Report::other_print_parts(&act, &canonical_vec());
    // no width-0 column: the base family ignores the valueless row,
    // the current family registers it with its real width
    assert!(base
        .iter()
        .all(|o| o.source != Source::AtBasePrices(s("только текущие"), Matches::Exact)));
    assert!(base.iter().all(|o| o.expected_columns >= 1));
    assert!(curr
        .iter()
        .any(|o| o.source == Source::AtCurrPrices(s("только текущие"), Matches::Exact)));
    // frozen from this document, a later row with base values for that
    // name finds no zero-width claim to swallow them
    let mut report = Report::new();
    report.write(&act).unwrap();
    let later = row("только текущие", vec![Some(1.0)], vec![Some(2.0)]);
    let writes = report.write_totals(&later);
    assert_eq!(writes.len(), 1, "only the current-price value has a column");
}
