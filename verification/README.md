# Listas encadeadas verificadas

Uma lista simplesmente encadeada (`ListaEncadeada`) e uma lista
duplamente encadeada (`ListaDupla`). As células vivem numa arena e cada uma é
designada por um endereço (`usize`) que não muda enquanto ela estiver na
lista. Os endereços das células removidas vão para uma pilha de livres
(`lista.livres()`) e são reaproveitados a começar pelo último liberado; os
contratos das inserções e remoções dizem isso.

- `src/encadeamento.rs`: ligações entre células e lemas sobre sequências de endereços.
- `src/lista_encadeada.rs`, `src/lista_dupla.rs`: as listas e os seus iteradores.
- `src/leis.rs`: leis que relacionam várias operações.
- `tests/`: cenários e casos de borda.
- `app/main.rs`: o programa de demonstração, que imprime as listas.

Cada operação pública tem um contrato sobre a sequência de conteúdos (`lista@`)
e a sequência de endereços (`lista.enderecos()`), verificado pelo Verus.
