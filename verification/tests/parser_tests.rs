use cti_engine::labels::NlpGenerator;
use cti_engine::parser::{CustomData, DataType, TerraformData, ToInputData};

fn tags(xs: &[&str]) -> Vec<String> {
    xs.iter().map(|s| s.to_string()).collect()
}

#[test]
fn terraform_parsing() {
}

#[test]
fn custom_data() {
    let countries = vec![
        "United States".to_string(),
        "Italy".to_string(),
        "Germany".to_string(),
    ];
    let sectors = vec!["Public Administration".to_string(), "Finance".to_string()];
    let operating_systems = vec![
        "Windows".to_string(),
        "Linux".to_string(),
        "MacOS".to_string(),
    ];
    let software = vec![
        "Wordpress".to_string(),
        "Joomla".to_string(),
        "Drupal".to_string(),
    ];
    let custom = CustomData::new(
        countries.clone(),
        sectors.clone(),
        operating_systems.clone(),
        software.clone(),
    );
    let input = custom.to_input_data();
    assert_eq!(input.countries, countries);
    assert_eq!(input.sectors, sectors);
    assert_eq!(input.operating_systems, operating_systems);
    assert_eq!(input.software, software);
}

#[test]
fn terraform_state_to_input_data() {
    let data = TerraformData {
        outputs: vec![
            ("countries".to_string(), tags(&["Italy", "Germany"])),
            ("sectors".to_string(), tags(&["Finance"])),
            ("other".to_string(), tags(&["ignored"])),
        ],
        resource_names: tags(&["web_server", "database"]),
    };
    let input = data.to_input_data();
    assert_eq!(input.countries, tags(&["Italy", "Germany"]));
    assert_eq!(input.sectors, tags(&["Finance"]));
    assert_eq!(input.operating_systems.len(), 0);
    assert_eq!(input.software, tags(&["web_server", "database"]));
}

#[test]
fn terraform_state_without_outputs() {
    let data = TerraformData {
        outputs: vec![],
        resource_names: tags(&["app"]),
    };
    let input = data.to_input_data();
    assert_eq!(input.countries.len(), 0);
    assert_eq!(input.sectors.len(), 0);
    assert_eq!(input.software, tags(&["app"]));
}

#[test]
fn data_types_enumerate_supported_formats() {
    let all = DataType::all();
    assert_eq!(all.len(), 3);
    assert!(matches!(all[0], DataType::Custom));
    assert!(matches!(all[1], DataType::Terraform));
    assert!(matches!(all[2], DataType::SaltStack));
}

#[test]
fn nlp_generator_appends_extra_stop_words() {
    let base = NlpGenerator::default();
    assert!(base.stop_words.len() > 0);
    // the compiled English list holds ordinary function words
    assert!(base.stop_words.iter().any(|w| w == "the"));
    let extra = tags(&["zzz-custom-word"]);
    let gen = NlpGenerator::new(&extra);
    assert_eq!(gen.stop_words.len(), base.stop_words.len() + 1);
    assert_eq!(gen.stop_words[gen.stop_words.len() - 1], "zzz-custom-word");
}

#[test]
fn label_set_folds_and_deduplicates() {
    let gen = NlpGenerator::new(&[]);
    let labels = gen.label_set(&tags(&["Foo", "BAR", "foo"]), &tags(&["Windows"]));
    assert_eq!(labels, tags(&["foo", "bar", "windows"]));
}
