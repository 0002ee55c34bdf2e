use acts_ks2::extract::{
    desired_data_array, find_sheet_name, is_candidate_file_name, path_is_excluded,
    search_reference_points, Cell, Sheet,
};
use acts_ks2::transform::{Act, FieldValue};
use acts_ks2::Error;

fn s(x: &str) -> String {
    String::from(x)
}

fn text_cell(row: usize, col: usize, text: &str) -> Cell {
    Cell { row, col, val: FieldValue::Text(s(text)) }
}

// every required anchor of the process-wide table, in declared order, in
// one column: the expected column-shift sum is zero
fn ordered_cells() -> Vec<Cell> {
    vec![
        text_cell(0, 2, "ИСПОЛНИТЕЛЬ"),
        text_cell(1, 5, "Стройка"),
        text_cell(2, 5, "Объект"),
        text_cell(2, 8, "Дом 7"),
        text_cell(3, 5, "Договор подряда"),
        text_cell(4, 5, "Доп. соглашение"),
        text_cell(5, 5, "Номер документа"),
        text_cell(6, 5, "Наименование работ и затрат"),
        text_cell(7, 5, "Стоимость материальных ресурсов (всего)"),
    ]
}

fn resolve(cells: Vec<Cell>) -> Result<Sheet, Error> {
    Sheet::new(
        s("in/a.xlsm"),
        s("Лист1"),
        cells,
        Some((0, 0)),
        &search_reference_points(),
        0,
    )
}

fn point(sheet: &Sheet, tag: &str) -> Option<(usize, usize)> {
    sheet
        .search_points
        .iter()
        .rev()
        .find(|(t, _)| t == tag)
        .map(|(_, p)| *p)
}

#[test]
fn ordered_required_anchors_resolve() {
    let sheet = resolve(ordered_cells()).unwrap();
    assert_eq!(point(&sheet, "стройка"), Some((1, 5)));
    assert_eq!(point(&sheet, "объект"), Some((2, 5)));
    assert_eq!(
        point(&sheet, "стоимость материальных ресурсов (всего)"),
        Some((7, 5))
    );
    assert_eq!(sheet.range_start, (0, 0));
    assert_eq!(sheet.sheet_name, "Лист1");
}

#[test]
fn permuted_required_anchors_fail() {
    let mut cells = ordered_cells();
    // swap the vertical order of two required anchors
    let a = cells.iter().position(|c| c.val == FieldValue::Text(s("Стройка"))).unwrap();
    let b = cells
        .iter()
        .position(|c| c.val == FieldValue::Text(s("Стоимость материальных ресурсов (всего)")))
        .unwrap();
    let (ra, rb) = (cells[a].row, cells[b].row);
    cells[a].row = rb;
    cells[b].row = ra;
    cells.swap(a, b);
    match resolve(cells) {
        Err(Error::IncompleteAnchorSet { file_path }) => assert_eq!(file_path, "in/a.xlsm"),
        _ => panic!("a permuted sheet must fail the completeness check"),
    }
}

#[test]
fn shifted_columns_fail() {
    let mut cells = ordered_cells();
    let a = cells.iter().position(|c| c.val == FieldValue::Text(s("Объект"))).unwrap();
    cells[a].col = 9;
    match resolve(cells) {
        Err(Error::ColumnsShifted { file_path }) => assert_eq!(file_path, "in/a.xlsm"),
        _ => panic!("a shifted sheet must fail the geometric check"),
    }
}

#[test]
fn empty_sheet_range_fails() {
    match Sheet::new(
        s("in/a.xlsm"),
        s("Лист1"),
        Vec::new(),
        None,
        &search_reference_points(),
        0,
    ) {
        Err(Error::EmptySheetRange { file_path, sh_name }) => {
            assert_eq!(file_path, "in/a.xlsm");
            assert_eq!(sh_name, "Лист1");
        }
        _ => panic!("a sheet without a used range must be rejected"),
    }
}

#[test]
fn optional_absence_perturbs_nothing() {
    let with_optional = resolve(ordered_cells()).unwrap();
    let without: Vec<Cell> = ordered_cells()
        .into_iter()
        .filter(|c| c.val != FieldValue::Text(s("ИСПОЛНИТЕЛЬ")))
        .collect();
    let without_optional = resolve(without).unwrap();
    for tag in [
        "стройка",
        "объект",
        "договор подряда",
        "доп. соглашение",
        "номер документа",
        "наименование работ и затрат",
        "стоимость материальных ресурсов (всего)",
    ] {
        assert_eq!(point(&with_optional, tag), point(&without_optional, tag));
    }
    // the optional anchor itself is present only where its cell is
    assert_eq!(point(&with_optional, "исполнитель"), Some((0, 2)));
    assert_eq!(point(&without_optional, "исполнитель"), None);
}

#[test]
fn none_offset_field_is_verbatim() {
    let sheet = resolve(ordered_cells()).unwrap();
    let act = Act::from_sheet(&sheet, &desired_data_array(), Vec::new());
    let i = act.names_of_header.iter().position(|n| n == "Исполнитель").unwrap();
    // the anchor cell's raw value comes through unchanged, case included
    assert_eq!(act.data_of_header[i], FieldValue::Text(s("ИСПОЛНИТЕЛЬ")));
    // an offset field reads the displaced cell
    let j = act.names_of_header.iter().position(|n| n == "Объект").unwrap();
    assert_eq!(act.data_of_header[j], FieldValue::Text(s("Дом 7")));
    // a field whose anchor is absent resolves to Absent, not an error
    let k = act.names_of_header.iter().position(|n| n == "Затраты труда, чел.-час").unwrap();
    assert_eq!(act.data_of_header[k], FieldValue::Absent);
}

#[test]
fn sheet_name_lookup_is_case_insensitive() {
    let names = vec![s("Отчет"), s("ЛИСТ1"), s("лист1")];
    assert_eq!(find_sheet_name(&names, "Лист1"), Some(1));
    assert_eq!(find_sheet_name(&names, "отчет"), Some(0));
    assert_eq!(find_sheet_name(&names, "нет такого"), None);
}

#[test]
fn file_filters() {
    assert!(is_candidate_file_name("act.xlsm"));
    assert!(!is_candidate_file_name("~act.xlsm"));
    assert!(!is_candidate_file_name("act.xlsx"));
    assert!(!is_candidate_file_name(""));
    assert!(path_is_excluded("arch@ive/act.xlsm"));
    assert!(!path_is_excluded("archive/act.xlsm"));
}

#[test]
fn missing_sheet_name_is_reported_with_alternatives() {
    let names = vec![s("Лист1"), s("Сводка")];
    match acts_ks2::extract::select_sheet_name("in/a.xlsm", &names, "Итоги") {
        Err(Error::SheetNotFound { file_path, sh_name_for_search, sh_names }) => {
            assert_eq!(file_path, "in/a.xlsm");
            assert_eq!(sh_name_for_search, "Итоги");
            assert_eq!(sh_names, names);
        }
        _ => panic!("an unknown sheet name must be rejected with the available names"),
    }
    assert_eq!(
        acts_ks2::extract::select_sheet_name("in/a.xlsm", &names, "лист1").unwrap(),
        s("Лист1")
    );
}
