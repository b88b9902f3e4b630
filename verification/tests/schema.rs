//! Tests of the tag schema service's dynamic default values.
use hienmark_analysis::schema::TagSchemaService;

#[test]
fn test_calculate_today_plus_7() {
    let service = TagSchemaService::new();
    let result = service.calculate_dynamic_default_value("=[TODAY]+7");
    assert!(result.is_ok());
    let result_str = result.unwrap();
    assert!(result_str.contains("T"));
    assert!(result_str.contains("+") || result_str.contains("-"));
}

#[test]
fn test_calculate_today() {
    let service = TagSchemaService::new();
    let result = service.calculate_dynamic_default_value("=[TODAY]");
    assert!(result.is_ok());
    let result_str = result.unwrap();
    assert!(result_str.contains("T"));
    assert!(result_str.contains("+") || result_str.contains("-"));
}

#[test]
fn test_invalid_formula() {
    let service = TagSchemaService::new();
    let result = service.calculate_dynamic_default_value("invalid");
    assert!(result.is_err());
}

#[test]
fn negative_offsets_are_accepted() {
    let service = TagSchemaService::new();
    assert!(service.calculate_dynamic_default_value("=[TODAY]-30").is_ok());
}

#[test]
fn missing_day_count_after_sign_is_rejected() {
    let service = TagSchemaService::new();
    assert!(service.calculate_dynamic_default_value("=[TODAY]+").is_err());
}

#[test]
fn out_of_range_offsets_are_rejected() {
    let service = TagSchemaService::new();
    assert!(service
        .calculate_dynamic_default_value("=[TODAY]+99999999999999999999")
        .is_err());
}
