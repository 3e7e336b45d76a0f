# blog

A small blogging service (users, sessions, articles, comments) whose rules are
verified with Verus.

- `src/` is the verified library:
  - `utils` — slugs of article titles (`slugify`, proved against a
    split/filter/clean/join specification, with a law on the characters a slug
    may hold) and Argon2 password hashing and checking;
  - `auth` — user groups, the session made of a stored user, cookie constants;
  - `extractor` — which requests count as signed in or anonymous;
  - `handlers` — the session cookie's text and headers, profile editing and
    sign-out decisions;
  - `db` — the answers to lookups that find nothing;
  - `error` — the service's errors and their HTTP status codes;
  - `models` — the forms and the stored user.
- `app/` is the web service around it: configuration, PostgreSQL and Redis
  access, axum routing, Tera templates, and the blocking-thread plumbing for
  password hashing.
- `tests/` runs the library on concrete values.
