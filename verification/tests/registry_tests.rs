use staff_registry::registry::Company;
use staff_registry::registry::Listing;
use staff_registry::registry::MapEntry;
use staff_registry::registry::Person;

fn person(name: &str, department: &str) -> Person {
    Person { name: name.to_string(), department: department.to_string() }
}

fn names(listing: Listing) -> Vec<String> {
    match listing {
        Listing::All(v) => v,
        Listing::Department(v) => v,
        Listing::NotFound => panic!("expected a listing"),
    }
}

#[test]
fn listing_is_sorted_and_deterministic() {
    let mut company = Company::new();
    company.add(person("Bob", "Engineering"));
    company.add(person("Alice", "Engineering"));
    let listed = names(company.list(&"all".to_string()));
    assert_eq!(listed, vec!["Alice".to_string(), "Bob".to_string()]);
}

#[test]
fn add_is_idempotent() {
    let mut once = Company::new();
    once.add(person("Alice", "Engineering"));
    let mut twice = Company::new();
    twice.add(person("Alice", "Engineering"));
    twice.add(person("Alice", "Engineering"));
    assert_eq!(once, twice);
}

#[test]
fn cascading_cleanup() {
    let mut company = Company::new();
    company.add(person("Alice", "Eng"));
    company.add(person("Alice", "Sales"));

    company.remove(person("Alice", "Eng"));
    // Alice was Eng's only member, so Eng disappears; Alice stays under Sales.
    assert_eq!(company.list(&"Eng".to_string()), Listing::NotFound);
    assert_eq!(names(company.list(&"all".to_string())), vec!["Alice".to_string()]);
    assert_eq!(names(company.list(&"Sales".to_string())), vec!["Alice".to_string()]);

    company.remove(person("Alice", "Sales"));
    // Sales was Alice's last department: she leaves the roster, and Sales
    // loses its only member.
    assert_eq!(names(company.list(&"all".to_string())), Vec::<String>::new());
    assert_eq!(company.list(&"Sales".to_string()), Listing::NotFound);
}

#[test]
fn shared_department_survives_one_removal() {
    let mut company = Company::new();
    company.add(person("Alice", "Eng"));
    company.add(person("Bob", "Eng"));
    company.remove(person("Alice", "Eng"));
    assert_eq!(names(company.list(&"Eng".to_string())), vec!["Bob".to_string()]);
    assert_eq!(names(company.list(&"all".to_string())), vec!["Bob".to_string()]);
}

#[test]
fn remove_of_absent_membership_is_a_noop() {
    let mut company = Company::new();
    company.remove(person("Bob", "X"));
    assert_eq!(company, Company::new());

    let mut company = Company::new();
    company.add(person("Alice", "Eng"));
    let before = company.clone();
    company.remove(person("Alice", "Sales"));
    company.remove(person("Bob", "Eng"));
    // Neither membership existed; Eng keeps Alice, nothing was corrupted.
    assert_eq!(names(company.list(&"Eng".to_string())), vec!["Alice".to_string()]);
    assert_eq!(company.employees, before.employees);
    assert_eq!(company.department_employees, before.department_employees);
}

#[test]
fn remove_heals_department_side_only_state() {
    // "Bob" is filed under department "X" but the employee index and the
    // roster know nothing of it.
    let mut company = Company {
        employees: Vec::new(),
        department_employees: vec![MapEntry {
            key: "X".to_string(),
            vals: vec!["Bob".to_string()],
        }],
        employee_departments: Vec::new(),
    };
    company.remove(person("Bob", "X"));
    assert!(company.department_employees.is_empty());
    assert!(company.employee_departments.is_empty());
    assert!(company.employees.is_empty());
}

#[test]
fn remove_heals_employee_side_only_state() {
    // "Bob" is on the roster with department "X", but "X" has no member
    // list.
    let mut company = Company {
        employees: vec!["Bob".to_string()],
        department_employees: Vec::new(),
        employee_departments: vec![MapEntry {
            key: "Bob".to_string(),
            vals: vec!["X".to_string()],
        }],
    };
    company.remove(person("Bob", "X"));
    assert!(company.department_employees.is_empty());
    // Bob's department list ran out, so he leaves the roster; the entry may
    // stay behind, but only with an empty list.
    assert!(company.employees.is_empty());
    assert_eq!(company.employee_departments.len(), 1);
    assert_eq!(company.employee_departments[0].key, "Bob".to_string());
    assert!(company.employee_departments[0].vals.is_empty());
}

#[test]
fn listing_all_on_empty_registry() {
    let company = Company::new();
    assert_eq!(company.list(&"all".to_string()), Listing::All(Vec::new()));
}

#[test]
fn department_listing_is_sorted() {
    let mut company = Company::new();
    company.add(person("Carol", "Eng"));
    company.add(person("Alice", "Eng"));
    company.add(person("Bob", "Eng"));
    assert_eq!(
        names(company.list(&"Eng".to_string())),
        vec!["Alice".to_string(), "Bob".to_string(), "Carol".to_string()]
    );
}

#[test]
fn employee_in_several_departments() {
    let mut company = Company::new();
    company.add(person("Alice", "Sales"));
    company.add(person("Alice", "Eng"));
    assert_eq!(names(company.list(&"Sales".to_string())), vec!["Alice".to_string()]);
    assert_eq!(names(company.list(&"Eng".to_string())), vec!["Alice".to_string()]);
    assert_eq!(names(company.list(&"all".to_string())), vec!["Alice".to_string()]);
}

#[test]
fn selector_all_is_exact() {
    let mut company = Company::new();
    company.add(person("Alice", "all"));
    // The department literally named "all" is shadowed by the reserved
    // selector; the members are still there under the index.
    assert_eq!(names(company.list(&"all".to_string())), vec!["Alice".to_string()]);
    assert_eq!(company.list(&"ALL".to_string()), Listing::NotFound);
}
