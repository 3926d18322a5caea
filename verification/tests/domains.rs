use trsp::{prepare_domain_name, Domain, Domains, DomainsSet};

fn check(blocked_domain: &str, requested_domain: &str, mode: &str) -> Result<(), String> {
    let mut domains_set = DomainsSet::new();
    if mode == "blocked" {
        domains_set.add_blocked_domain(blocked_domain);
        if !domains_set.is_domain_blocked(requested_domain) {
            return Err(format!(
                "Domain '{}' is not blocked (blocked: {})",
                requested_domain, blocked_domain
            ));
        }
    } else if mode == "excluded" {
        domains_set.add_blocked_domain(blocked_domain);
        domains_set.add_excluded_domain(blocked_domain);
        if domains_set.is_domain_blocked(requested_domain) {
            return Err(format!(
                "Domain '{}' is blocked, but must be excluded (excluded: {})",
                requested_domain, blocked_domain,
            ));
        }
    } else {
        return Err(String::from("Unexpected mode"));
    }
    Ok(())
}

#[test]
fn test_domains_set_is_domain_in_domains() -> Result<(), String> {
    // Blocked
    if let Err(e) = check("somedomain.ru", "somedomain.ru", "blocked") {
        return Err(e);
    }
    if let Ok(()) = check("somedomain.ru", "notsomedomain.ru", "blocked") {
        return Err("'notsomedomain.ru' blocked, but must be dont".into());
    }
    if let Err(e) = check("*.wildcard.ru", "wildcard.ru", "blocked") {
        return Err(e);
    }
    if let Ok(()) = check("*.wildcard.ru", "notwildcard.ru", "blocked") {
        return Err("'notwildcard.ru' blocked, but must be dont".into());
    }
    if let Err(e) = check("*.wildcard.ru", "some.wildcard.ru", "blocked") {
        return Err(e);
    }
    if let Err(e) = check("*.wildcard.ru", "another.some.wildcard.ru", "blocked") {
        return Err(e);
    }

    // Excluded
    if let Err(e) = check("somedomain.ru", "somedomain.ru", "excluded") {
        return Err(e);
    }
    if let Err(e) = check("somedomain.ru", "notsomedomain.ru", "excluded") {
        return Err(format!("'notsomedomain.ru' not excluded, but must be: {}", e));
    }
    if let Err(e) = check("*.wildcard.ru", "wildcard.ru", "excluded") {
        return Err(e);
    }
    if let Err(e) = check("*.wildcard.ru", "some.wildcard.ru", "excluded") {
        return Err(e);
    }
    if let Err(e) = check("*.wildcard.ru", "another.some.wildcard.ru", "excluded") {
        return Err(e);
    }
    Ok(())
}

#[test]
fn blocked_name_trailing_dot_ignored() {
    let mut ds = DomainsSet::new();
    ds.add_blocked_domain("somedomain.ru");
    assert!(ds.is_domain_blocked("somedomain.ru."));
    assert!(ds.is_domain_blocked("somedomain.ru..."));
}

#[test]
fn bare_star_blocks_everything() {
    let mut ds = DomainsSet::new();
    ds.add_blocked_domain("*");
    assert!(ds.is_domain_blocked("anything.example"));
    assert!(ds.is_domain_blocked("example"));
}

#[test]
fn imported_domains_block_too() {
    let mut ds = DomainsSet::new();
    ds.imported_domains.set("imported.example");
    assert!(ds.is_domain_blocked("imported.example"));
    assert!(!ds.is_domain_blocked("other.example"));
}

#[test]
fn prepare_domain_name_rules() {
    assert_eq!(prepare_domain_name(&"example.com".to_string()), "example.com");
    assert_eq!(prepare_domain_name(&"example.com.".to_string()), "example.com");
    assert_eq!(prepare_domain_name(&"*.example.com".to_string()), "*.example.com");
    assert_eq!(prepare_domain_name(&"bad\\path".to_string()), "");
    assert_eq!(prepare_domain_name(&"bad domain".to_string()), "");
    assert_eq!(prepare_domain_name(&"домен.рф".to_string()), "домен.рф");
    assert_eq!(prepare_domain_name(&"ёлка.рф".to_string()), "");
    assert_eq!(prepare_domain_name(&"домен.com".to_string()), "домен.com");
    assert_eq!(prepare_domain_name(&"".to_string()), "");
}

#[test]
fn domains_collection_basics() {
    let mut d = Domains::new();
    assert_eq!(d.count(), 0);
    assert!(d.set("a.example"));
    assert!(!d.set("a.example"));
    assert_eq!(d.count(), 1);
    assert!(d.get("a.example").is_some());
    assert_eq!(d.get("a.example").unwrap().as_str(), "a.example");
    assert!(d.get("b.example").is_none());
    let copy = d.get_copy("a.example");
    assert_eq!(copy.unwrap().as_str(), "a.example");
    assert!(d.insert(Domain::new("b.example")));
    assert_eq!(d.count(), 2);
    assert!(d.remove("a.example"));
    assert!(!d.remove("a.example"));
    assert_eq!(d.count(), 1);
    d.extend(vec![Domain::new("c.example"), Domain::new("b.example")]);
    assert_eq!(d.count(), 2);
    d.cleanup();
    assert_eq!(d.count(), 0);
}

#[test]
fn matching_ignores_case() {
    let mut ds = DomainsSet::new();
    ds.add_blocked_domain("somedomain.ru");
    assert!(ds.is_domain_blocked("SomeDomain.RU"));
    assert!(ds.is_domain_blocked("SOMEDOMAIN.RU."));

    // an entry spelled with uppercase letters matches too
    let mut ds = DomainsSet::new();
    ds.add_blocked_domain("*.WildCard.Ru");
    assert!(ds.is_domain_blocked("wildcard.ru"));
    assert!(ds.is_domain_blocked("some.WILDCARD.ru"));
    assert!(!ds.is_domain_blocked("notwildcard.ru"));

    // Cyrillic letters fold the same way
    let mut ds = DomainsSet::new();
    ds.add_blocked_domain("домен.com");
    assert!(ds.is_domain_blocked("ДОМЕН.com"));
}
