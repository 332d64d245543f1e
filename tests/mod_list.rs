use modcheck::mod_list::parse_mod_line;
use modcheck::types::ModType;

#[test]
fn modrinth_link_gives_its_slug() {
    let m = parse_mod_line("https://modrinth.com/mod/waystones").unwrap();
    assert_eq!(m.name, "waystones");
    assert!(matches!(m.mod_type, ModType::ModrinthModType));
}

#[test]
fn repeated_link_prefix_is_all_taken_off() {
    let m = parse_mod_line("https://modrinth.com/mod/https://modrinth.com/mod/sodium").unwrap();
    assert_eq!(m.name, "sodium");
}

#[test]
fn bare_link_gives_empty_name() {
    let m = parse_mod_line("https://modrinth.com/mod/").unwrap();
    assert_eq!(m.name, "");
}

#[test]
fn other_lines_give_no_mod() {
    assert!(parse_mod_line("https://www.curseforge.com/minecraft/mc-mods/jei").is_none());
    assert!(parse_mod_line("").is_none());
    assert!(parse_mod_line("https://modrinth.com/mo").is_none());
}
